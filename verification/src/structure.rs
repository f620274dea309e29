//! The logical structure tree of a tagged PDF: its elements with their
//! roles, pages, marked-content ids, titles and alternate texts.
use vstd::prelude::*;
use crate::json::{jv, jv_items, jv_members, member, push_member, text, Json, JsonV};
use crate::model::{entry_get, find_entry, get_object, lookup, objects_sorted, resolve_object, ObjRef, PdfDoc, PdfValue};
use crate::stream::{lossy_string, utf8_lossy};
use crate::textbuf::{dec, dec_int, push_dec, push_dec_i64, push_str, views, push_line};
use crate::tree::{indent, push_indent};
use crate::types::DumpConfig;
use crate::validate::{contains_ref, key, plain_dict, plain_dict_at, resolve_dict_value, resolved_dict, root_ref};

verus! {

/// A structure element: the object it is (`0 0` for one written inline),
/// its role, the page it is on, its first marked-content id, title,
/// alternate text and child elements.
pub struct StructElemInfo {
    pub object_id: ObjRef,
    pub role: String,
    pub page: Option<u32>,
    pub mcid: Option<i64>,
    pub title: Option<String>,
    pub alt: Option<String>,
    pub children: Vec<StructElemInfo>,
}

/// The mathematical form of a structure element.
pub struct ElemSpec {
    pub id: ObjRef,
    pub role: Seq<char>,
    pub page: Option<u32>,
    pub mcid: Option<i64>,
    pub title: Option<Seq<char>>,
    pub alt: Option<Seq<char>>,
    pub children: Seq<ElemSpec>,
}

pub open spec fn opt_view(s: Option<String>) -> Option<Seq<char>> {
    match s {
        Some(t) => Some(t@),
        None => None,
    }
}

pub open spec fn elem_view(e: StructElemInfo) -> ElemSpec
    decreases e,
{
    ElemSpec {
        id: e.object_id,
        role: e.role@,
        page: e.page,
        mcid: e.mcid,
        title: opt_view(e.title),
        alt: opt_view(e.alt),
        children: elems_view(e.children@),
    }
}

pub open spec fn elems_view(s: Seq<StructElemInfo>) -> Seq<ElemSpec>
    decreases s,
{
    if s.len() == 0 {
        Seq::empty()
    } else {
        seq![elem_view(s[0])] + elems_view(s.subrange(1, s.len() as int))
    }
}

proof fn lemma_elems_view_push(s: Seq<StructElemInfo>, x: StructElemInfo)
    ensures
        elems_view(s.push(x)) == elems_view(s).push(elem_view(x)),
    decreases s.len(),
{
    let p = s.push(x);
    if s.len() == 0 {
        assert(p.subrange(1, p.len() as int) =~= Seq::<StructElemInfo>::empty());
        assert(p[0] == x);
        assert(elems_view(Seq::<StructElemInfo>::empty()) =~= Seq::<ElemSpec>::empty());
        assert(elems_view(p) =~= seq![elem_view(x)]);
    } else {
        let t = s.subrange(1, s.len() as int);
        assert(p.subrange(1, p.len() as int) =~= t.push(x));
        lemma_elems_view_push(t, x);
        assert(elems_view(p) =~= elems_view(s).push(elem_view(x)));
    }
}

proof fn lemma_elems_view_len(s: Seq<StructElemInfo>)
    ensures
        elems_view(s).len() == s.len(),
        forall|i: int| 0 <= i < s.len() ==> #[trigger] elems_view(s)[i] == elem_view(s[i]),
    decreases s.len(),
{
    if s.len() > 0 {
        let t = s.subrange(1, s.len() as int);
        lemma_elems_view_len(t);
        assert forall|i: int| 0 <= i < s.len() implies #[trigger] elems_view(s)[i] == elem_view(s[i]) by {
            if i > 0 {
                assert(t[i - 1] == s[i]);
            }
        }
    }
}

/// A role: a name's text, or `-` for anything else.
pub open spec fn role_of(v: PdfValue) -> Seq<char> {
    match v {
        PdfValue::Name(n) => utf8_lossy(n@),
        _ => "-"@,
    }
}

/// A string's text.
pub open spec fn text_of(v: Option<PdfValue>) -> Option<Seq<char>> {
    match v {
        Some(PdfValue::Str(b)) => Some(utf8_lossy(b@)),
        _ => None,
    }
}

/// The number of the last page whose object `p` is (pages count from 1).
pub open spec fn page_number(pages: Seq<ObjRef>, p: ObjRef) -> Option<u32>
    decreases pages.len(),
{
    if pages.len() == 0 {
        None
    } else if pages.last() == p {
        Some(pages.len() as u32)
    } else {
        page_number(pages.drop_last(), p)
    }
}

/// The page an element's `/Pg` refers to.
pub open spec fn page_of(es: Seq<(Vec<u8>, PdfValue)>, pages: Seq<ObjRef>) -> Option<u32> {
    match entry_get(es, key("Pg"@)) {
        Some(PdfValue::Reference(p)) => page_number(pages, p),
        _ => None,
    }
}

/// A marked-content id in an item of `/K`: an integer, or a dictionary's
/// integer `/MCID`.
pub open spec fn item_mcid(v: PdfValue) -> Option<i64> {
    match v {
        PdfValue::Integer(n) => Some(n),
        PdfValue::Dictionary(d) => match entry_get(d@, key("MCID"@)) {
            Some(PdfValue::Integer(n)) => Some(n),
            _ => None,
        },
        _ => None,
    }
}

/// The first marked-content id among array items.
pub open spec fn first_mcid(items: Seq<PdfValue>) -> Option<i64>
    decreases items.len(),
{
    if items.len() == 0 {
        None
    } else {
        match item_mcid(items[0]) {
            Some(n) => Some(n),
            None => first_mcid(items.drop_first()),
        }
    }
}

/// An element's marked-content id: its `/K` itself, or the first in a
/// `/K` array.
pub open spec fn mcid_of(es: Seq<(Vec<u8>, PdfValue)>) -> Option<i64> {
    match entry_get(es, key("K"@)) {
        Some(PdfValue::Array(items)) => first_mcid(items@),
        Some(v) => item_mcid(v),
        None => None,
    }
}

/// The items of an element's `/K`: an array's items, or the value alone.
pub open spec fn k_items(es: Seq<(Vec<u8>, PdfValue)>) -> Seq<PdfValue> {
    match entry_get(es, key("K"@)) {
        Some(PdfValue::Array(items)) => items@,
        Some(v) => seq![v],
        None => Seq::empty(),
    }
}

/// What one item of a `/K` adds to the elements so far (`prev`, with the
/// objects taken): a reference not yet taken to a dictionary with `/S` is an
/// element with its own children (below `fuel` levels, none: one level per
/// object always suffices, see `law_struct_fuel`); an inline dictionary with
/// `/S` is an element without children; anything else adds none.
pub open spec fn struct_step(
    objs: Seq<(ObjRef, PdfValue)>,
    pages: Seq<ObjRef>,
    item: PdfValue,
    prev: (Seq<ElemSpec>, Seq<ObjRef>),
    fuel: nat,
) -> (Seq<ElemSpec>, Seq<ObjRef>)
    decreases fuel, 0nat, 0nat,
{
    match item {
        PdfValue::Reference(r) => if prev.1.contains(r) {
            prev
        } else {
            let v2 = prev.1.push(r);
            match get_object(objs, r) {
                Some(i) => match objs[i].1 {
                    PdfValue::Dictionary(cd) => match entry_get(cd@, key("S"@)) {
                        Some(s) => {
                            let kids = if fuel == 0 {
                                (Seq::empty(), v2)
                            } else {
                                struct_children(objs, pages, cd@, v2, (fuel - 1) as nat)
                            };
                            let e = ElemSpec {
                                id: r,
                                role: role_of(s),
                                page: page_of(cd@, pages),
                                mcid: mcid_of(cd@),
                                title: text_of(entry_get(cd@, key("T"@))),
                                alt: text_of(entry_get(cd@, key("Alt"@))),
                                children: kids.0,
                            };
                            (prev.0.push(e), kids.1)
                        },
                        None => (prev.0, v2),
                    },
                    _ => (prev.0, v2),
                },
                None => (prev.0, v2),
            }
        },
        PdfValue::Dictionary(d) => match entry_get(d@, key("S"@)) {
            Some(s) => (
                prev.0.push(
                    ElemSpec {
                        id: ObjRef { num: 0, gen: 0 },
                        role: role_of(s),
                        page: None,
                        mcid: mcid_of(d@),
                        title: None,
                        alt: None,
                        children: Seq::empty(),
                    },
                ),
                prev.1,
            ),
            None => prev,
        },
        _ => prev,
    }
}

/// The elements the first `n` items of a `/K` make, in order, with the
/// objects in `visited` already taken (see `struct_step`).
pub open spec fn struct_items(
    objs: Seq<(ObjRef, PdfValue)>,
    pages: Seq<ObjRef>,
    items: Seq<PdfValue>,
    visited: Seq<ObjRef>,
    fuel: nat,
    n: nat,
) -> (Seq<ElemSpec>, Seq<ObjRef>)
    decreases fuel, 0nat, n,
{
    if n == 0 {
        (Seq::empty(), visited)
    } else {
        struct_step(objs, pages, items[n - 1], struct_items(objs, pages, items, visited, fuel, (n - 1) as nat), fuel)
    }
}

/// The child elements of the element (or root) with entries `es`.
pub open spec fn struct_children(
    objs: Seq<(ObjRef, PdfValue)>,
    pages: Seq<ObjRef>,
    es: Seq<(Vec<u8>, PdfValue)>,
    visited: Seq<ObjRef>,
    fuel: nat,
) -> (Seq<ElemSpec>, Seq<ObjRef>)
    decreases fuel, 1nat, 0nat,
{
    let items = k_items(es);
    struct_items(objs, pages, items, visited, fuel, items.len())
}

/// The catalog's entries.
pub open spec fn catalog_of(d: PdfDoc) -> Option<Seq<(Vec<u8>, PdfValue)>> {
    match root_ref(d) {
        Some(r) => plain_dict_at(d.objects@, r),
        None => None,
    }
}

/// Whether the catalog's `/MarkInfo` says `/Marked true`.
pub open spec fn is_marked(d: PdfDoc) -> bool {
    match catalog_of(d) {
        Some(cat) => match resolved_dict(d.objects@, entry_get(cat, key("MarkInfo"@))) {
            Some(mi) => entry_get(mi, key("Marked"@)) == Some(PdfValue::Boolean(true)),
            None => false,
        },
        None => false,
    }
}

/// The structure tree: whether the document is marked as tagged, and the
/// elements below `/StructTreeRoot`.
pub open spec fn structure_tree(d: PdfDoc, pages: Seq<ObjRef>) -> (bool, Seq<ElemSpec>) {
    match catalog_of(d) {
        None => (false, Seq::empty()),
        Some(cat) => match resolved_dict(d.objects@, entry_get(cat, key("StructTreeRoot"@))) {
            None => (is_marked(d), Seq::empty()),
            Some(root) => (is_marked(d), struct_children(d.objects@, pages, root, Seq::empty(), d.objects@.len()).0),
        },
    }
}

fn page_number_of(pages: &Vec<ObjRef>, p: ObjRef) -> (r: Option<u32>)
    requires
        pages@.len() <= u32::MAX,
    ensures
        r == page_number(pages@, p),
{
    let mut k: usize = pages.len();
    assert(pages@.take(k as int) =~= pages@);
    while k > 0
        invariant
            k <= pages@.len() <= u32::MAX,
            page_number(pages@, p) == page_number(pages@.take(k as int), p),
        decreases k,
    {
        assert(pages@.take(k as int).last() == pages@[k - 1]);
        assert(pages@.take(k as int).drop_last() =~= pages@.take(k - 1));
        if pages[k - 1] == p {
            return Some(k as u32);
        }
        k = k - 1;
    }
    None
}

fn entry<'a>(es: &'a Vec<(Vec<u8>, PdfValue)>, k: &str) -> (r: Option<&'a PdfValue>)
    ensures
        match r {
            Some(v) => entry_get(es@, key(k@)) == Some(*v),
            None => entry_get(es@, key(k@)) is None,
        },
{
    match find_entry(es, k.as_bytes()) {
        Some(j) => Some(&es[j].1),
        None => None,
    }
}

fn item_mcid_exec(v: &PdfValue) -> (r: Option<i64>)
    ensures
        r == item_mcid(*v),
{
    match v {
        PdfValue::Integer(n) => Some(*n),
        PdfValue::Dictionary(d) => match entry(d, "MCID") {
            Some(PdfValue::Integer(n)) => Some(*n),
            _ => None,
        },
        _ => None,
    }
}

fn mcid_exec(es: &Vec<(Vec<u8>, PdfValue)>) -> (r: Option<i64>)
    ensures
        r == mcid_of(es@),
{
    match entry(es, "K") {
        Some(PdfValue::Array(items)) => {
            let mut i: usize = 0;
            assert(items@.skip(0) =~= items@);
            while i < items.len()
                invariant
                    i <= items@.len(),
                    mcid_of(es@) == first_mcid(items@),
                    first_mcid(items@) == first_mcid(items@.skip(i as int)),
                decreases items.len() - i,
            {
                assert(items@.skip(i as int)[0] == items@[i as int]);
                assert(items@.skip(i as int).drop_first() =~= items@.skip(i + 1));
                if let Some(n) = item_mcid_exec(&items[i]) {
                    return Some(n);
                }
                i = i + 1;
            }
            None
        },
        Some(v) => item_mcid_exec(v),
        None => None,
    }
}

fn text_exec(v: Option<&PdfValue>) -> (r: Option<String>)
    ensures
        opt_view(r) == text_of(
            match v {
                Some(x) => Some(*x),
                None => None,
            },
        ),
{
    match v {
        Some(PdfValue::Str(b)) => Some(lossy_string(b.as_slice())),
        _ => None,
    }
}

fn role_exec(v: &PdfValue) -> (r: String)
    ensures
        r@ == role_of(*v),
{
    match v {
        PdfValue::Name(n) => lossy_string(n.as_slice()),
        _ => {
            let mut t = String::new();
            push_str(&mut t, "-");
            t
        },
    }
}

fn page_exec(es: &Vec<(Vec<u8>, PdfValue)>, pages: &Vec<ObjRef>) -> (r: Option<u32>)
    requires
        pages@.len() <= u32::MAX,
    ensures
        r == page_of(es@, pages@),
{
    match entry(es, "Pg") {
        Some(PdfValue::Reference(p)) => page_number_of(pages, *p),
        _ => None,
    }
}

fn walk_item(
    out: &mut Vec<StructElemInfo>,
    doc: &PdfDoc,
    pages: &Vec<ObjRef>,
    item: &PdfValue,
    visited: &mut Vec<ObjRef>,
    fuel: usize,
)
    requires
        objects_sorted(doc.objects@),
        pages@.len() <= u32::MAX,
    ensures
        (elems_view(final(out)@), final(visited)@) == struct_step(
            doc.objects@,
            pages@,
            *item,
            (elems_view(old(out)@), old(visited)@),
            fuel as nat,
        ),
    decreases fuel, 0nat, 0nat,
{
    match item {
        PdfValue::Reference(r) => {
            if contains_ref(visited, *r) {
                return;
            }
            visited.push(*r);
            match resolve_object(&doc.objects, *r) {
                Some(i) => match &doc.objects[i].1 {
                    PdfValue::Dictionary(cd) => match entry(cd, "S") {
                        Some(sv) => {
                            let children = if fuel == 0 {
                                Vec::new()
                            } else {
                                walk_children(doc, pages, cd, visited, fuel - 1)
                            };
                            proof {
                                if fuel == 0 {
                                    assert(elems_view(children@) =~= Seq::<ElemSpec>::empty());
                                }
                            }
                            let e = StructElemInfo {
                                object_id: *r,
                                role: role_exec(sv),
                                page: page_exec(cd, pages),
                                mcid: mcid_exec(cd),
                                title: text_exec(entry(cd, "T")),
                                alt: text_exec(entry(cd, "Alt")),
                                children,
                            };
                            let ghost before = out@;
                            out.push(e);
                            proof {
                                lemma_elems_view_push(before, e);
                            }
                        },
                        None => {},
                    },
                    _ => {},
                },
                None => {},
            }
        },
        PdfValue::Dictionary(d) => match entry(d, "S") {
            Some(sv) => {
                let e = StructElemInfo {
                    object_id: ObjRef { num: 0, gen: 0 },
                    role: role_exec(sv),
                    page: None,
                    mcid: mcid_exec(d),
                    title: None,
                    alt: None,
                    children: Vec::new(),
                };
                proof {
                    assert(elems_view(e.children@) =~= Seq::<ElemSpec>::empty());
                }
                let ghost before = out@;
                out.push(e);
                proof {
                    lemma_elems_view_push(before, e);
                }
            },
            None => {},
        },
        _ => {},
    }
}

fn walk_children(
    doc: &PdfDoc,
    pages: &Vec<ObjRef>,
    es: &Vec<(Vec<u8>, PdfValue)>,
    visited: &mut Vec<ObjRef>,
    fuel: usize,
) -> (r: Vec<StructElemInfo>)
    requires
        objects_sorted(doc.objects@),
        pages@.len() <= u32::MAX,
    ensures
        (elems_view(r@), final(visited)@) == struct_children(doc.objects@, pages@, es@, old(visited)@, fuel as nat),
    decreases fuel, 1nat, 0nat,
{
    let mut out: Vec<StructElemInfo> = Vec::new();
    assert(elems_view(out@) =~= Seq::<ElemSpec>::empty());
    match entry(es, "K") {
        Some(PdfValue::Array(items)) => {
            let ghost v0 = visited@;
            let mut i: usize = 0;
            while i < items.len()
                invariant
                    objects_sorted(doc.objects@),
                    pages@.len() <= u32::MAX,
                    i <= items@.len(),
                    k_items(es@) == items@,
                    (elems_view(out@), visited@) == struct_items(doc.objects@, pages@, items@, v0, fuel as nat, i as nat),
                decreases items.len() - i,
            {
                walk_item(&mut out, doc, pages, &items[i], visited, fuel);
                i = i + 1;
            }
        },
        Some(v) => {
            let ghost v0 = visited@;
            assert(k_items(es@) =~= seq![*v]);
            walk_item(&mut out, doc, pages, v, visited, fuel);
            assert(struct_items(doc.objects@, pages@, seq![*v], v0, fuel as nat, 0) == (
                Seq::<ElemSpec>::empty(),
                v0,
            ));
        },
        None => {
            assert(k_items(es@) =~= Seq::<PdfValue>::empty());
        },
    }
    out
}

fn catalog_exec(doc: &PdfDoc) -> (r: Option<&Vec<(Vec<u8>, PdfValue)>>)
    requires
        objects_sorted(doc.objects@),
    ensures
        match r {
            Some(es) => catalog_of(*doc) == Some(es@),
            None => catalog_of(*doc) is None,
        },
{
    match entry(&doc.trailer, "Root") {
        Some(PdfValue::Reference(r)) => plain_dict(&doc.objects, *r),
        _ => None,
    }
}

/// The structure tree (see `structure_tree`): whether the document is
/// marked as tagged, and the elements below `/StructTreeRoot`, each object
/// taken once. `pages` are the page objects in order.
pub fn collect_structure_tree(doc: &PdfDoc, pages: &Vec<ObjRef>) -> (r: (bool, Vec<StructElemInfo>))
    requires
        objects_sorted(doc.objects@),
        pages@.len() <= u32::MAX,
    ensures
        (r.0, elems_view(r.1@)) == structure_tree(*doc, pages@),
{
    let cat = match catalog_exec(doc) {
        Some(c) => c,
        None => {
            let v: Vec<StructElemInfo> = Vec::new();
            assert(elems_view(v@) =~= Seq::<ElemSpec>::empty());
            return (false, v);
        },
    };
    let marked = match resolve_dict_value(&doc.objects, entry(cat, "MarkInfo")) {
        Some(mi) => match entry(mi, "Marked") {
            Some(PdfValue::Boolean(b)) => *b,
            _ => false,
        },
        None => false,
    };
    match resolve_dict_value(&doc.objects, entry(cat, "StructTreeRoot")) {
        None => {
            let v: Vec<StructElemInfo> = Vec::new();
            assert(elems_view(v@) =~= Seq::<ElemSpec>::empty());
            (marked, v)
        },
        Some(root) => {
            let mut visited: Vec<ObjRef> = Vec::new();
            assert(visited@ =~= Seq::<ObjRef>::empty());
            let children = walk_children(doc, pages, root, &mut visited, doc.objects.len());
            (marked, children)
        },
    }
}

// ── Writing the tree ─────────────────────────────────────────────────

/// The number of elements in a list of trees.
pub open spec fn elem_count(s: Seq<ElemSpec>) -> nat
    decreases s,
{
    if s.len() == 0 {
        0
    } else {
        1 + elem_count(s[0].children) + elem_count(s.subrange(1, s.len() as int))
    }
}

/// A count as a `u64` holds it: capped at its largest value.
pub open spec fn capped(n: int) -> int {
    if n > u64::MAX {
        u64::MAX as int
    } else {
        n
    }
}

proof fn lemma_capped(x: int, y: int)
    requires
        x >= 0,
        y >= 0,
    ensures
        capped(capped(x) + y) == capped(x + y),
{
}

fn count_struct_elems(items: &Vec<StructElemInfo>) -> (r: u64)
    ensures
        r == capped(elem_count(elems_view(items@)) as int),
    decreases items,
{
    let mut total: u64 = 0;
    let mut i: usize = 0;
    let ghost v = elems_view(items@);
    proof {
        lemma_elems_view_len(items@);
    }
    assert(items@.subrange(0, items@.len() as int) =~= items@);
    while i < items.len()
        invariant
            i <= items@.len(),
            v == elems_view(items@),
            capped(elem_count(v) as int) == capped(total + elem_count(elems_view(items@.subrange(i as int, items@.len() as int)))),
        decreases items.len() - i,
    {
        let ghost rest = items@.subrange(i as int, items@.len() as int);
        proof {
            lemma_elems_view_len(rest);
            assert(rest[0] == items@[i as int]);
            assert(rest.subrange(1, rest.len() as int) =~= items@.subrange(i + 1, items@.len() as int));
            assert(decreases_to!(*items => items@));
            assert(decreases_to!(items@ => items@[i as int]));
        }
        let c = count_struct_elems(&items[i].children);
        let ghost a = elem_count(elems_view(items@[i as int].children@));
        let ghost b = elem_count(elems_view(items@.subrange(i + 1, items@.len() as int)));
        proof {
            let sv = elems_view(rest);
            assert(sv =~= seq![elem_view(items@[i as int])] + elems_view(items@.subrange(i + 1, items@.len() as int)));
            assert(sv[0] == elem_view(items@[i as int]));
            assert(sv.subrange(1, sv.len() as int) =~= elems_view(items@.subrange(i + 1, items@.len() as int)));
        }
        assert(elem_count(elems_view(rest)) == 1 + a + b);
        let ghost total_old = total as int;
        let step = c.saturating_add(1);
        total = total.saturating_add(step);
        proof {
            lemma_capped(c + 1, 0);
            lemma_capped(total + step, b as int);
            lemma_capped(c + 1, total_old + b);
            lemma_capped(a as int, 1 + total_old + b);
        }
        i = i + 1;
    }
    assert(items@.subrange(i as int, items@.len() as int) =~= Seq::<StructElemInfo>::empty());
    total
}

/// The height of a list of trees: the most elements on a path down.
pub open spec fn height(s: Seq<ElemSpec>) -> nat
    decreases s,
{
    if s.len() == 0 {
        0
    } else {
        let h0 = 1 + height(s[0].children);
        let hr = height(s.subrange(1, s.len() as int));
        if h0 > hr {
            h0
        } else {
            hr
        }
    }
}

proof fn lemma_height_parts(s: Seq<ElemSpec>)
    requires
        s.len() > 0,
    ensures
        height(s[0].children) < height(s),
        height(s.subrange(1, s.len() as int)) <= height(s),
{
}

proof fn lemma_height_push(s: Seq<ElemSpec>, e: ElemSpec)
    ensures
        height(s.push(e)) == if 1 + height(e.children) > height(s) {
            1 + height(e.children)
        } else {
            height(s)
        },
    decreases s.len(),
{
    let p = s.push(e);
    if s.len() == 0 {
        assert(p.subrange(1, p.len() as int) =~= Seq::<ElemSpec>::empty());
        assert(p[0] == e);
        assert(height(Seq::<ElemSpec>::empty()) == 0);
        assert(height(s) == 0);
    } else {
        let t = s.subrange(1, s.len() as int);
        assert(p.subrange(1, p.len() as int) =~= t.push(e));
        assert(p[0] == s[0]);
        lemma_height_push(t, e);
    }
}

/// Every element found with `fuel` levels left lies at most `fuel + 1`
/// levels deep.
proof fn lemma_items_height(
    objs: Seq<(ObjRef, PdfValue)>,
    pages: Seq<ObjRef>,
    items: Seq<PdfValue>,
    visited: Seq<ObjRef>,
    fuel: nat,
    n: nat,
)
    ensures
        height(struct_items(objs, pages, items, visited, fuel, n).0) <= fuel + 1,
    decreases fuel, 0nat, n,
{
    if n > 0 {
        let prev = struct_items(objs, pages, items, visited, fuel, (n - 1) as nat);
        lemma_items_height(objs, pages, items, visited, fuel, (n - 1) as nat);
        lemma_step_height(objs, pages, items[n - 1], prev, fuel);
    } else {
        assert(struct_items(objs, pages, items, visited, fuel, n).0 =~= Seq::<ElemSpec>::empty());
    }
}

proof fn lemma_step_height(
    objs: Seq<(ObjRef, PdfValue)>,
    pages: Seq<ObjRef>,
    item: PdfValue,
    prev: (Seq<ElemSpec>, Seq<ObjRef>),
    fuel: nat,
)
    requires
        height(prev.0) <= fuel + 1,
    ensures
        height(struct_step(objs, pages, item, prev, fuel).0) <= fuel + 1,
    decreases fuel, 0nat, 0nat,
{
    match item {
        PdfValue::Reference(r) => {
            if !prev.1.contains(r) {
                let v2 = prev.1.push(r);
                if let Some(i) = get_object(objs, r) {
                    if let PdfValue::Dictionary(cd) = objs[i].1 {
                        if let Some(sv) = entry_get(cd@, key("S"@)) {
                            let kids = if fuel == 0 {
                                (Seq::<ElemSpec>::empty(), v2)
                            } else {
                                struct_children(objs, pages, cd@, v2, (fuel - 1) as nat)
                            };
                            if fuel > 0 {
                                let it = k_items(cd@);
                                lemma_items_height(objs, pages, it, v2, (fuel - 1) as nat, it.len());
                            }
                            let e = ElemSpec {
                                id: r,
                                role: role_of(sv),
                                page: page_of(cd@, pages),
                                mcid: mcid_of(cd@),
                                title: text_of(entry_get(cd@, key("T"@))),
                                alt: text_of(entry_get(cd@, key("Alt"@))),
                                children: kids.0,
                            };
                            lemma_height_push(prev.0, e);
                        }
                    }
                }
            }
        },
        PdfValue::Dictionary(d) => {
            if let Some(sv) = entry_get(d@, key("S"@)) {
                let e = ElemSpec {
                    id: ObjRef { num: 0, gen: 0 },
                    role: role_of(sv),
                    page: None,
                    mcid: mcid_of(d@),
                    title: None,
                    alt: None,
                    children: Seq::empty(),
                };
                lemma_height_push(prev.0, e);
            }
        },
        _ => {},
    }
}

pub open spec fn is_inline(id: ObjRef) -> bool {
    id.num == 0 && id.gen == 0
}

pub open spec fn elem_head(e: ElemSpec, depth: nat) -> Seq<char> {
    indent(depth) + if !is_inline(e.id) {
        "["@ + dec(e.id.num as nat) + "] /"@ + e.role
    } else {
        "/"@ + e.role
    }
}

pub open spec fn page_note(p: Option<u32>) -> Seq<char> {
    match p {
        Some(p) => " (page "@ + dec(p as nat) + ")"@,
        None => Seq::empty(),
    }
}

pub open spec fn mcid_note(m: Option<i64>) -> Seq<char> {
    match m {
        Some(m) => " MCID="@ + dec_int(m as int),
        None => Seq::empty(),
    }
}

pub open spec fn quoted_note(prefix: Seq<char>, t: Option<Seq<char>>) -> Seq<char> {
    match t {
        Some(t) => prefix + "\""@ + t + "\""@,
        None => Seq::empty(),
    }
}

pub open spec fn elem_attrs(e: ElemSpec) -> Seq<char> {
    page_note(e.page) + mcid_note(e.mcid) + quoted_note(" "@, e.title) + quoted_note(" alt="@, e.alt)
}

pub open spec fn elem_count_note(e: ElemSpec, depth: nat, max: Option<usize>) -> Seq<char> {
    if max == Some(depth as usize) && depth <= usize::MAX && e.children.len() > 0 {
        " ("@ + dec(capped(elem_count(e.children) as int) as nat) + " children)"@
    } else {
        Seq::empty()
    }
}

/// An element's line: its object number (unless written inline) and role,
/// then its page, marked-content id, title and alternate text where it has
/// them, and at the depth limit the number of elements below it.
pub open spec fn elem_line(e: ElemSpec, depth: nat, max: Option<usize>) -> Seq<char> {
    elem_head(e, depth) + elem_attrs(e) + elem_count_note(e, depth, max)
}

/// The lines of a list of trees at `depth`: each element's line, then its
/// children's one level deeper, none deeper than the limit.
pub open spec fn elems_lines(s: Seq<ElemSpec>, depth: nat, max: Option<usize>) -> Seq<Seq<char>>
    decreases s,
{
    if s.len() == 0 {
        Seq::empty()
    } else {
        (if max matches Some(m) && depth > m {
            Seq::empty()
        } else {
            seq![elem_line(s[0], depth, max)] + elems_lines(s[0].children, depth + 1, max)
        }) + elems_lines(s.subrange(1, s.len() as int), depth, max)
    }
}

/// The structure report: whether the document is tagged, the number of
/// elements, then the tree.
pub open spec fn structure_lines(d: PdfDoc, pages: Seq<ObjRef>, max: Option<usize>) -> Seq<Seq<char>> {
    let t = structure_tree(d, pages);
    seq![
        "Tagged PDF: "@ + if t.0 {
            "yes"@
        } else {
            "no"@
        },
        "Structure elements: "@ + dec(capped(elem_count(t.1) as int) as nat),
        Seq::empty(),
    ] + elems_lines(t.1, 0, max)
}

fn push_elem_head(line: &mut String, e: &StructElemInfo, depth: usize)
    ensures
        final(line)@ == old(line)@ + elem_head(elem_view(*e), depth as nat),
{
    let ghost l0 = line@;
    push_indent(line, depth);
    if !(e.object_id.num == 0 && e.object_id.gen == 0) {
        push_str(line, "[");
        push_dec(line, e.object_id.num as u64);
        push_str(line, "] /");
    } else {
        push_str(line, "/");
    }
    push_str(line, e.role.as_str());
    assert(line@ =~= l0 + elem_head(elem_view(*e), depth as nat));
}

fn push_quoted(line: &mut String, prefix: &str, t: &Option<String>)
    ensures
        final(line)@ == old(line)@ + quoted_note(prefix@, opt_view(*t)),
{
    if let Some(x) = t {
        push_str(line, prefix);
        push_str(line, "\"");
        push_str(line, x.as_str());
        push_str(line, "\"");
    }
}

fn push_elem_attrs(line: &mut String, e: &StructElemInfo)
    ensures
        final(line)@ == old(line)@ + elem_attrs(elem_view(*e)),
{
    let ghost l0 = line@;
    if let Some(p) = e.page {
        push_str(line, " (page ");
        push_dec(line, p as u64);
        push_str(line, ")");
    }
    assert(line@ =~= l0 + page_note(e.page));
    let ghost l1 = line@;
    if let Some(m) = e.mcid {
        push_str(line, " MCID=");
        push_dec_i64(line, m);
    }
    assert(line@ =~= l1 + mcid_note(e.mcid));
    push_quoted(line, " ", &e.title);
    push_quoted(line, " alt=", &e.alt);
    assert(line@ =~= l0 + page_note(e.page) + mcid_note(e.mcid) + quoted_note(" "@, opt_view(e.title)) + quoted_note(
        " alt="@,
        opt_view(e.alt),
    ));
}

fn push_elem_line(out: &mut Vec<String>, e: &StructElemInfo, depth: usize, max: Option<usize>)
    ensures
        views(final(out)@) == views(old(out)@).push(elem_line(elem_view(*e), depth as nat, max)),
{
    let ghost ev = elem_view(*e);
    let mut line = String::new();
    push_elem_head(&mut line, e, depth);
    push_elem_attrs(&mut line, e);
    let ghost l1 = line@;
    proof {
        lemma_elems_view_len(e.children@);
    }
    if max == Some(depth) && e.children.len() > 0 {
        push_str(&mut line, " (");
        let c = count_struct_elems(&e.children);
        push_dec(&mut line, c);
        push_str(&mut line, " children)");
    }
    assert(line@ =~= l1 + elem_count_note(ev, depth as nat, max));
    assert(line@ =~= elem_line(ev, depth as nat, max));
    push_line(out, line);
}

fn push_elems_lines(out: &mut Vec<String>, items: &Vec<StructElemInfo>, depth: usize, max: Option<usize>)
    requires
        depth + height(elems_view(items@)) < usize::MAX,
    ensures
        views(final(out)@) == views(old(out)@) + elems_lines(elems_view(items@), depth as nat, max),
    decreases items,
{
    let ghost o0 = views(out@);
    let mut i: usize = 0;
    assert(items@.subrange(0, items@.len() as int) =~= items@);
    while i < items.len()
        invariant
            i <= items@.len(),
            depth + height(elems_view(items@.subrange(i as int, items@.len() as int))) < usize::MAX,
            views(out@) + elems_lines(elems_view(items@.subrange(i as int, items@.len() as int)), depth as nat, max) == o0
                + elems_lines(elems_view(items@), depth as nat, max),
        decreases items.len() - i,
    {
        let ghost rest = items@.subrange(i as int, items@.len() as int);
        let ghost sv = elems_view(rest);
        proof {
            assert(rest[0] == items@[i as int]);
            assert(rest.subrange(1, rest.len() as int) =~= items@.subrange(i + 1, items@.len() as int));
            assert(sv =~= seq![elem_view(items@[i as int])] + elems_view(items@.subrange(i + 1, items@.len() as int)));
            assert(sv[0] == elem_view(items@[i as int]));
            assert(sv.subrange(1, sv.len() as int) =~= elems_view(items@.subrange(i + 1, items@.len() as int)));
            assert(decreases_to!(*items => items@));
            assert(decreases_to!(items@ => items@[i as int]));
        }
        let ghost before = views(out@);
        let shown = match max {
            Some(m) => depth <= m,
            None => true,
        };
        if shown {
            push_elem_line(out, &items[i], depth, max);
            proof {
                lemma_height_parts(sv);
            }
            push_elems_lines(out, &items[i].children, depth + 1, max);
        }
        proof {
            lemma_height_parts(sv);
        }
        assert(views(out@) + elems_lines(elems_view(items@.subrange(i + 1, items@.len() as int)), depth as nat, max)
            =~= before + elems_lines(sv, depth as nat, max));
        i = i + 1;
    }
    assert(items@.subrange(i as int, items@.len() as int) =~= Seq::<StructElemInfo>::empty());
    assert(views(out@) =~= o0 + elems_lines(elems_view(items@), depth as nat, max));
}

proof fn lemma_tree_height(d: PdfDoc, pages: Seq<ObjRef>)
    ensures
        height(structure_tree(d, pages).1) <= d.objects@.len() + 1,
{
    if let Some(cat) = catalog_of(d) {
        if let Some(root) = resolved_dict(d.objects@, entry_get(cat, key("StructTreeRoot"@))) {
            let it = k_items(root);
            lemma_items_height(d.objects@, pages, it, Seq::empty(), d.objects@.len(), it.len());
        } else {
            assert(structure_tree(d, pages).1 =~= Seq::<ElemSpec>::empty());
        }
    } else {
        assert(structure_tree(d, pages).1 =~= Seq::<ElemSpec>::empty());
    }
}

/// The structure report as lines (see `structure_lines`), with the depth
/// limit of `config`.
pub fn print_structure(doc: &PdfDoc, pages: &Vec<ObjRef>, config: &DumpConfig) -> (r: Vec<String>)
    requires
        objects_sorted(doc.objects@),
        pages@.len() <= u32::MAX,
        doc.objects@.len() + 2 < usize::MAX,
    ensures
        views(r@) == structure_lines(*doc, pages@, config.depth),
{
    let (marked, tree) = collect_structure_tree(doc, pages);
    proof {
        lemma_tree_height(*doc, pages@);
    }
    let mut out: Vec<String> = Vec::new();
    let mut a = String::new();
    push_str(&mut a, "Tagged PDF: ");
    push_str(&mut a, if marked { "yes" } else { "no" });
    push_line(&mut out, a);
    let mut b = String::new();
    push_str(&mut b, "Structure elements: ");
    let n = count_struct_elems(&tree);
    push_dec(&mut b, n);
    push_line(&mut out, b);
    push_line(&mut out, String::new());
    let ghost head = views(out@);
    push_elems_lines(&mut out, &tree, 0, config.depth);
    proof {
        reveal_strlit("yes");
        reveal_strlit("no");
    }
    assert(views(out@) =~= structure_lines(*doc, pages@, config.depth));
    out
}

// ── The tree as JSON ─────────────────────────────────────────────────

pub open spec fn id_members(id: ObjRef) -> Seq<(Seq<char>, JsonV)> {
    if !is_inline(id) {
        seq![member("object_number"@, JsonV::Int(id.num as int)), member("generation"@, JsonV::Int(id.gen as int))]
    } else {
        Seq::empty()
    }
}

pub open spec fn int_member(k: Seq<char>, v: Option<int>) -> Seq<(Seq<char>, JsonV)> {
    match v {
        Some(n) => seq![member(k, JsonV::Int(n))],
        None => Seq::empty(),
    }
}

pub open spec fn str_member(k: Seq<char>, v: Option<Seq<char>>) -> Seq<(Seq<char>, JsonV)> {
    match v {
        Some(t) => seq![member(k, JsonV::Str(t))],
        None => Seq::empty(),
    }
}

pub open spec fn page_int(p: Option<u32>) -> Option<int> {
    match p {
        Some(x) => Some(x as int),
        None => None,
    }
}

pub open spec fn mcid_int(m: Option<i64>) -> Option<int> {
    match m {
        Some(x) => Some(x as int),
        None => None,
    }
}

pub open spec fn elem_attr_members(e: ElemSpec) -> Seq<(Seq<char>, JsonV)> {
    id_members(e.id) + int_member("page"@, page_int(e.page)) + int_member("mcid"@, mcid_int(e.mcid)) + str_member(
        "title"@,
        e.title,
    ) + str_member("alt"@, e.alt)
}

/// An element as JSON: its role, object number and generation (unless
/// written inline), page, marked-content id, title and alternate text; at
/// the depth limit the number of elements below it, else its children.
pub open spec fn elem_json(e: ElemSpec, depth: nat, max: Option<usize>) -> JsonV
    decreases e,
{
    JsonV::Object(
        seq![member("role"@, JsonV::Str(e.role))] + elem_attr_members(e) + if max matches Some(m) && depth >= m {
            if e.children.len() > 0 {
                seq![member("children_count"@, JsonV::Int(capped(elem_count(e.children) as int)))]
            } else {
                Seq::empty()
            }
        } else if e.children.len() > 0 {
            seq![member("children"@, JsonV::Array(elems_json(e.children, depth + 1, max)))]
        } else {
            Seq::empty()
        },
    )
}

pub open spec fn elems_json(s: Seq<ElemSpec>, depth: nat, max: Option<usize>) -> Seq<JsonV>
    decreases s,
{
    if s.len() == 0 {
        Seq::empty()
    } else {
        seq![elem_json(s[0], depth, max)] + elems_json(s.subrange(1, s.len() as int), depth, max)
    }
}

/// The structure report as JSON: whether the document is tagged, the
/// number of elements, and the tree.
pub open spec fn structure_json(d: PdfDoc, pages: Seq<ObjRef>, max: Option<usize>) -> JsonV {
    let t = structure_tree(d, pages);
    JsonV::Object(
        seq![
            member("tagged"@, JsonV::Bool(t.0)),
            member("element_count"@, JsonV::Int(capped(elem_count(t.1) as int))),
            member("structure"@, JsonV::Array(elems_json(t.1, 0, max))),
        ],
    )
}

fn push_int_member(ms: &mut Vec<(String, Json)>, k: &str, v: Option<i64>)
    ensures
        jv_members(final(ms)@) == jv_members(old(ms)@) + int_member(k@, mcid_int(v)),
{
    let ghost m0 = jv_members(ms@);
    if let Some(n) = v {
        push_member(ms, k, Json::Int(n));
    }
    assert(jv_members(ms@) =~= m0 + int_member(k@, mcid_int(v)));
}

fn push_str_member(ms: &mut Vec<(String, Json)>, k: &str, v: &Option<String>)
    ensures
        jv_members(final(ms)@) == jv_members(old(ms)@) + str_member(k@, opt_view(*v)),
{
    let ghost m0 = jv_members(ms@);
    if let Some(t) = v {
        push_member(ms, k, Json::Str(text(t.as_str())));
    }
    assert(jv_members(ms@) =~= m0 + str_member(k@, opt_view(*v)));
}

fn push_elem_json_attrs(ms: &mut Vec<(String, Json)>, e: &StructElemInfo)
    ensures
        jv_members(final(ms)@) == jv_members(old(ms)@) + elem_attr_members(elem_view(*e)),
{
    let ghost m0 = jv_members(ms@);
    if !(e.object_id.num == 0 && e.object_id.gen == 0) {
        push_member(ms, "object_number", Json::Int(e.object_id.num as i64));
        push_member(ms, "generation", Json::Int(e.object_id.gen as i64));
    }
    assert(jv_members(ms@) =~= m0 + id_members(e.object_id));
    let ghost m1 = jv_members(ms@);
    let page: Option<i64> = match e.page {
        Some(p) => Some(p as i64),
        None => None,
    };
    assert(mcid_int(page) == page_int(e.page));
    push_int_member(ms, "page", page);
    push_int_member(ms, "mcid", e.mcid);
    push_str_member(ms, "title", &e.title);
    push_str_member(ms, "alt", &e.alt);
    assert(jv_members(ms@) =~= m0 + elem_attr_members(elem_view(*e)));
}

fn struct_elem_to_json(e: &StructElemInfo, depth: usize, max: Option<usize>) -> (r: Json)
    requires
        depth + height(seq![elem_view(*e)]) < usize::MAX,
    ensures
        jv(r) == elem_json(elem_view(*e), depth as nat, max),
    decreases e,
{
    let ghost ev = elem_view(*e);
    let mut ms: Vec<(String, Json)> = Vec::new();
    assert(jv_members(ms@) =~= Seq::<(Seq<char>, JsonV)>::empty());
    crate::json::push_member(&mut ms, "role", Json::Str(text(e.role.as_str())));
    push_elem_json_attrs(&mut ms, e);
    let ghost m1 = jv_members(ms@);
    proof {
        lemma_elems_view_len(e.children@);
        lemma_height_parts(seq![ev]);
    }
    let at_limit = match max {
        Some(m) => depth >= m,
        None => false,
    };
    assert(m1 =~= seq![member("role"@, JsonV::Str(ev.role))] + elem_attr_members(ev));
    if at_limit {
        if e.children.len() > 0 {
            let c = count_struct_elems(&e.children);
            push_member(&mut ms, "children_count", Json::UInt(c));
            assert(jv_members(ms@) =~= m1 + seq![
                member("children_count"@, JsonV::Int(capped(elem_count(ev.children) as int))),
            ]);
        } else {
            assert(jv_members(ms@) =~= m1 + Seq::<(Seq<char>, JsonV)>::empty());
        }
    } else if e.children.len() > 0 {
        let kids = struct_elems_to_json(&e.children, depth + 1, max);
        let ghost kv = jv_items(kids@);
        push_member(&mut ms, "children", Json::Array(kids));
        assert(jv_members(ms@) =~= m1 + seq![member("children"@, JsonV::Array(elems_json(ev.children, (depth + 1) as nat, max)))]);
    } else {
        assert(jv_members(ms@) =~= m1 + Seq::<(Seq<char>, JsonV)>::empty());
    }
    let r = Json::Object(ms);
    assert(jv(r) == JsonV::Object(jv_members(ms@)));
    r
}

fn struct_elems_to_json(items: &Vec<StructElemInfo>, depth: usize, max: Option<usize>) -> (r: Vec<Json>)
    requires
        depth + height(elems_view(items@)) < usize::MAX,
    ensures
        jv_items(r@) == elems_json(elems_view(items@), depth as nat, max),
    decreases items,
{
    let mut r: Vec<Json> = Vec::new();
    let mut i: usize = 0;
    assert(items@.subrange(0, items@.len() as int) =~= items@);
    assert(jv_items(r@) =~= Seq::<JsonV>::empty());
    while i < items.len()
        invariant
            i <= items@.len(),
            depth + height(elems_view(items@.subrange(i as int, items@.len() as int))) < usize::MAX,
            jv_items(r@) + elems_json(elems_view(items@.subrange(i as int, items@.len() as int)), depth as nat, max)
                == elems_json(elems_view(items@), depth as nat, max),
        decreases items.len() - i,
    {
        let ghost rest = items@.subrange(i as int, items@.len() as int);
        let ghost sv = elems_view(rest);
        proof {
            assert(rest[0] == items@[i as int]);
            assert(rest.subrange(1, rest.len() as int) =~= items@.subrange(i + 1, items@.len() as int));
            assert(sv =~= seq![elem_view(items@[i as int])] + elems_view(items@.subrange(i + 1, items@.len() as int)));
            assert(sv[0] == elem_view(items@[i as int]));
            assert(sv.subrange(1, sv.len() as int) =~= elems_view(items@.subrange(i + 1, items@.len() as int)));
            lemma_height_parts(sv);
            lemma_height_parts(seq![sv[0]]);
            assert(seq![sv[0]].subrange(1, 1) =~= Seq::<ElemSpec>::empty());
            assert(decreases_to!(*items => items@));
            assert(decreases_to!(items@ => items@[i as int]));
        }
        let ghost before = r@;
        let j = struct_elem_to_json(&items[i], depth, max);
        r.push(j);
        proof {
            crate::json::lemma_jv_items_push(before, j);
        }
        assert(jv_items(r@) + elems_json(elems_view(items@.subrange(i + 1, items@.len() as int)), depth as nat, max)
            =~= jv_items(before) + elems_json(sv, depth as nat, max));
        i = i + 1;
    }
    assert(items@.subrange(i as int, items@.len() as int) =~= Seq::<StructElemInfo>::empty());
    assert(jv_items(r@) =~= elems_json(elems_view(items@), depth as nat, max));
    r
}

/// The structure report as JSON (see `structure_json`), with the depth
/// limit of `config`.
pub fn print_structure_json(doc: &PdfDoc, pages: &Vec<ObjRef>, config: &DumpConfig) -> (r: Json)
    requires
        objects_sorted(doc.objects@),
        pages@.len() <= u32::MAX,
        doc.objects@.len() + 2 < usize::MAX,
    ensures
        jv(r) == structure_json(*doc, pages@, config.depth),
{
    let (marked, tree) = collect_structure_tree(doc, pages);
    proof {
        lemma_tree_height(*doc, pages@);
    }
    let n = count_struct_elems(&tree);
    let items = struct_elems_to_json(&tree, 0, config.depth);
    let ghost iv = jv_items(items@);
    let mut ms: Vec<(String, Json)> = Vec::new();
    assert(jv_members(ms@) =~= Seq::<(Seq<char>, JsonV)>::empty());
    push_member(&mut ms, "tagged", Json::Bool(marked));
    push_member(&mut ms, "element_count", Json::UInt(n));
    push_member(&mut ms, "structure", Json::Array(items));
    assert(jv_members(ms@) =~= seq![
        member("tagged"@, JsonV::Bool(marked)),
        member("element_count"@, JsonV::Int(n as int)),
        member("structure"@, JsonV::Array(iv)),
    ]);
    Json::Object(ms)
}

// ── Laws ─────────────────────────────────────────────────────────────

proof fn lemma_step_keeps(
    objs: Seq<(ObjRef, PdfValue)>,
    pages: Seq<ObjRef>,
    item: PdfValue,
    prev: (Seq<ElemSpec>, Seq<ObjRef>),
    fuel: nat,
)
    ensures
        forall|x: ObjRef| prev.1.contains(x) ==> #[trigger] struct_step(objs, pages, item, prev, fuel).1.contains(x),
    decreases fuel, 0nat, 0nat,
{
    if let PdfValue::Reference(r) = item {
        if !prev.1.contains(r) {
            let v2 = prev.1.push(r);
            assert forall|x: ObjRef| prev.1.contains(x) implies v2.contains(x) by {
                let j = choose|j: int| 0 <= j < prev.1.len() && prev.1[j] == x;
                assert(v2[j] == x);
            }
            if let Some(i) = get_object(objs, r) {
                if let PdfValue::Dictionary(cd) = objs[i].1 {
                    if let Some(sv) = entry_get(cd@, key("S"@)) {
                        if fuel > 0 {
                            let it = k_items(cd@);
                            lemma_items_keeps(objs, pages, it, v2, (fuel - 1) as nat, it.len());
                            let k = struct_items(objs, pages, it, v2, (fuel - 1) as nat, it.len());
                            assert forall|x: ObjRef| prev.1.contains(x) implies #[trigger] struct_step(
                                objs,
                                pages,
                                item,
                                prev,
                                fuel,
                            ).1.contains(x) by {
                                assert(v2.contains(x));
                                assert(k.1.contains(x));
                            }
                        }
                    }
                }
            }
        }
    }
}

proof fn lemma_items_keeps(
    objs: Seq<(ObjRef, PdfValue)>,
    pages: Seq<ObjRef>,
    items: Seq<PdfValue>,
    visited: Seq<ObjRef>,
    fuel: nat,
    n: nat,
)
    ensures
        forall|x: ObjRef| visited.contains(x) ==> #[trigger] struct_items(objs, pages, items, visited, fuel, n).1.contains(x),
    decreases fuel, 0nat, n,
{
    if n > 0 {
        lemma_items_keeps(objs, pages, items, visited, fuel, (n - 1) as nat);
        let prev = struct_items(objs, pages, items, visited, fuel, (n - 1) as nat);
        lemma_step_keeps(objs, pages, items[n - 1], prev, fuel);
        assert forall|x: ObjRef| visited.contains(x) implies #[trigger] struct_items(
            objs,
            pages,
            items,
            visited,
            fuel,
            n,
        ).1.contains(x) by {
            assert(prev.1.contains(x));
            assert(struct_step(objs, pages, items[n - 1], prev, fuel).1.contains(x));
        }
    }
}

/// Finding structure elements never needs more levels than there are
/// objects: when the objects on the current chain of element ancestors
/// (`anc`, all taken) and the levels left (`fuel`) together number at least
/// the objects, more levels give the same elements.
pub proof fn law_struct_fuel(
    objs: Seq<(ObjRef, PdfValue)>,
    pages: Seq<ObjRef>,
    item: PdfValue,
    prev: (Seq<ElemSpec>, Seq<ObjRef>),
    anc: Seq<ObjRef>,
    fuel: nat,
    more: nat,
)
    requires
        anc.no_duplicates(),
        forall|i: int| 0 <= i < anc.len() ==> (#[trigger] lookup(objs, anc[i])) is Some,
        forall|i: int| 0 <= i < anc.len() ==> prev.1.contains(#[trigger] anc[i]),
        fuel + anc.len() >= objs.len(),
        fuel <= more,
    ensures
        struct_step(objs, pages, item, prev, fuel) == struct_step(objs, pages, item, prev, more),
    decreases fuel, 0nat, 0nat,
{
    if let PdfValue::Reference(r) = item {
        if !prev.1.contains(r) {
            let v2 = prev.1.push(r);
            if let Some(i) = get_object(objs, r) {
                if let PdfValue::Dictionary(cd) = objs[i].1 {
                    if let Some(sv) = entry_get(cd@, key("S"@)) {
                        let anc2 = anc.push(r);
                        assert(lookup(objs, r) is Some);
                        assert(anc2.no_duplicates()) by {
                            assert forall|a: int, b: int| 0 <= a < anc2.len() && 0 <= b < anc2.len() && a != b implies anc2[a]
                                != anc2[b] by {
                                if a < anc.len() && b < anc.len() {
                                    assert(anc[a] != anc[b]);
                                } else if a < anc.len() {
                                    assert(prev.1.contains(anc[a]));
                                } else {
                                    assert(prev.1.contains(anc[b]));
                                }
                            }
                        }
                        assert forall|j: int| 0 <= j < anc2.len() implies (#[trigger] lookup(objs, anc2[j])) is Some by {
                            if j < anc.len() {
                                assert(anc2[j] == anc[j]);
                            }
                        }
                        if fuel == 0 {
                            crate::validate::lemma_existing_distinct(objs, anc2);
                        } else {
                            assert forall|j: int| 0 <= j < anc2.len() implies v2.contains(#[trigger] anc2[j]) by {
                                if j < anc.len() {
                                    assert(anc2[j] == anc[j]);
                                    let w = choose|w: int| 0 <= w < prev.1.len() && prev.1[w] == anc[j];
                                    assert(v2[w] == anc[j]);
                                } else {
                                    assert(v2[prev.1.len() as int] == r);
                                }
                            }
                            let it = k_items(cd@);
                            law_struct_items_fuel(
                                objs,
                                pages,
                                it,
                                v2,
                                anc2,
                                (fuel - 1) as nat,
                                (more - 1) as nat,
                                it.len(),
                            );
                        }
                    }
                }
            }
        }
    }
}

/// `law_struct_fuel` for the first `n` items of a `/K`.
pub proof fn law_struct_items_fuel(
    objs: Seq<(ObjRef, PdfValue)>,
    pages: Seq<ObjRef>,
    items: Seq<PdfValue>,
    visited: Seq<ObjRef>,
    anc: Seq<ObjRef>,
    fuel: nat,
    more: nat,
    n: nat,
)
    requires
        anc.no_duplicates(),
        forall|i: int| 0 <= i < anc.len() ==> (#[trigger] lookup(objs, anc[i])) is Some,
        forall|i: int| 0 <= i < anc.len() ==> visited.contains(#[trigger] anc[i]),
        fuel + anc.len() >= objs.len(),
        fuel <= more,
    ensures
        struct_items(objs, pages, items, visited, fuel, n) == struct_items(objs, pages, items, visited, more, n),
    decreases fuel, 0nat, n,
{
    if n > 0 {
        law_struct_items_fuel(objs, pages, items, visited, anc, fuel, more, (n - 1) as nat);
        let prev = struct_items(objs, pages, items, visited, fuel, (n - 1) as nat);
        lemma_items_keeps(objs, pages, items, visited, fuel, (n - 1) as nat);
        assert forall|i: int| 0 <= i < anc.len() implies prev.1.contains(#[trigger] anc[i]) by {
            assert(visited.contains(anc[i]));
        }
        law_struct_fuel(objs, pages, items[n - 1], prev, anc, fuel, more);
    }
}

} // verus!
