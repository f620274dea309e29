//! The resources a page uses: its fonts, external objects, graphics states
//! and color spaces, each named and described.
use vstd::prelude::*;
use crate::counts::str_lt;
use crate::counts::text_lt;
use crate::model::{entry_get, find_entry, get_object, lookup, objects_sorted, resolve_object, ObjRef, PdfDoc, PdfValue};
use crate::stream::{lossy_string, utf8_lossy};
use crate::textbuf::{dec, dec_int, join_with, push_dec, push_dec_i64, push_joined, push_line, push_str, views};
use crate::validate::{
    contains_ref, key, plain_dict, plain_dict_at, ref_value, resolve_dict_value, resolved_dict,
};

verus! {

/// Walking up from `cur` through `/Parent`, with `seen` already visited:
/// the `/Resources` dictionary of the first page-tree dictionary that has
/// a `/Resources` entry (a resolved dictionary, or none when it does not
/// resolve to one). Stops at an id met twice, a non-dictionary, a missing
/// `/Parent`, or after `fuel` steps.
pub open spec fn resources_walk(
    objs: Seq<(ObjRef, PdfValue)>,
    cur: ObjRef,
    seen: Seq<ObjRef>,
    fuel: nat,
) -> Option<Seq<(Vec<u8>, PdfValue)>>
    decreases fuel,
{
    match plain_dict_at(objs, cur) {
        None => None,
        Some(d) => if seen.contains(cur) {
            None
        } else {
            match entry_get(d, key("Resources"@)) {
                Some(res) => resolved_dict(objs, Some(res)),
                None => match entry_get(d, key("Parent"@)) {
                    Some(PdfValue::Reference(p)) => if fuel == 0 {
                        None
                    } else {
                        resources_walk(objs, p, seen.push(cur), (fuel - 1) as nat)
                    },
                    _ => None,
                },
            }
        },
    }
}

/// The resources a page has or inherits.
pub open spec fn page_resources(objs: Seq<(ObjRef, PdfValue)>, page: ObjRef) -> Option<Seq<(Vec<u8>, PdfValue)>> {
    resources_walk(objs, page, Seq::empty(), objs.len())
}

/// The walk up the page tree never needs more steps than there are
/// objects: with `fuel` steps left and the ids in `seen` (distinct objects)
/// together at least the objects, more steps give the same result.
pub proof fn law_resources_walk_fuel(
    objs: Seq<(ObjRef, PdfValue)>,
    cur: ObjRef,
    seen: Seq<ObjRef>,
    fuel: nat,
    more: nat,
)
    requires
        seen.no_duplicates(),
        forall|i: int| 0 <= i < seen.len() ==> (#[trigger] lookup(objs, seen[i])) is Some,
        fuel + seen.len() >= objs.len(),
        fuel <= more,
    ensures
        resources_walk(objs, cur, seen, fuel) == resources_walk(objs, cur, seen, more),
    decreases fuel,
{
    if let Some(d) = plain_dict_at(objs, cur) {
        if !seen.contains(cur) && entry_get(d, key("Resources"@)) is None {
            if let Some(PdfValue::Reference(p)) = entry_get(d, key("Parent"@)) {
                let s2 = seen.push(cur);
                assert(get_object(objs, cur) is Some);
                assert(lookup(objs, cur) is Some);
                assert(s2.no_duplicates()) by {
                    assert forall|a: int, b: int| 0 <= a < s2.len() && 0 <= b < s2.len() && a != b implies s2[a]
                        != s2[b] by {
                        if a < seen.len() && b < seen.len() {
                            assert(seen[a] != seen[b]);
                        } else if a < seen.len() {
                            assert(seen.contains(s2[a]));
                        } else {
                            assert(seen.contains(s2[b]));
                        }
                    }
                }
                assert forall|i: int| 0 <= i < s2.len() implies (#[trigger] lookup(objs, s2[i])) is Some by {
                    if i < seen.len() {
                        assert(s2[i] == seen[i]);
                    }
                }
                if fuel == 0 {
                    crate::validate::lemma_existing_distinct(objs, s2);
                } else {
                    law_resources_walk_fuel(objs, p, s2, (fuel - 1) as nat, (more - 1) as nat);
                }
            }
        }
    }
}

/// The resources dictionary a page has or inherits from an ancestor in the
/// page tree.
pub fn resolve_page_resources<'a>(doc: &'a PdfDoc, page: ObjRef) -> (r: Option<&'a Vec<(Vec<u8>, PdfValue)>>)
    requires
        objects_sorted(doc.objects@),
    ensures
        match r {
            Some(es) => page_resources(doc.objects@, page) == Some(es@),
            None => page_resources(doc.objects@, page) is None,
        },
{
    let objs = &doc.objects;
    let n = objs.len();
    let mut seen: Vec<ObjRef> = Vec::new();
    let mut cur = page;
    let mut fuel: usize = n;
    assert(seen@ =~= Seq::<ObjRef>::empty());
    loop
        invariant
            objects_sorted(objs@),
            objs@ == doc.objects@,
            fuel <= n,
            resources_walk(objs@, cur, seen@, fuel as nat) == page_resources(objs@, page),
        decreases fuel,
    {
        let d = match plain_dict(objs, cur) {
            None => {
                return None;
            },
            Some(d) => d,
        };
        if contains_ref(&seen, cur) {
            return None;
        }
        match find_entry(d, "Resources".as_bytes()) {
            Some(j) => {
                return resolve_dict_value(objs, Some(&d[j].1));
            },
            None => {},
        }
        match ref_value(d, "Parent") {
            Some(p) => {
                if fuel == 0 {
                    return None;
                }
                seen.push(cur);
                cur = p;
                fuel = fuel - 1;
            },
            None => {
                return None;
            },
        }
    }
}

/// The dictionary of the object an id names, a stream's dictionary too.
pub open spec fn any_dict_at(objs: Seq<(ObjRef, PdfValue)>, r: ObjRef) -> Option<Seq<(Vec<u8>, PdfValue)>> {
    match get_object(objs, r) {
        Some(i) => match objs[i].1 {
            PdfValue::Dictionary(es) => Some(es@),
            PdfValue::Stream { dict, content } => Some(dict@),
            _ => None,
        },
        None => None,
    }
}

/// A name entry as text.
pub open spec fn name_text(es: Seq<(Vec<u8>, PdfValue)>, k: Seq<char>) -> Option<Seq<char>> {
    match entry_get(es, key(k)) {
        Some(PdfValue::Name(n)) => Some(utf8_lossy(n@)),
        _ => None,
    }
}

/// The font's descriptor names its embedded font program: a reference
/// under `/FontFile`, `/FontFile2` or `/FontFile3`.
pub open spec fn has_font_file(objs: Seq<(ObjRef, PdfValue)>, font: Seq<(Vec<u8>, PdfValue)>) -> bool {
    match resolved_dict(objs, entry_get(font, key("FontDescriptor"@))) {
        Some(fd) => (entry_get(fd, key("FontFile"@)) matches Some(PdfValue::Reference(_))) || (entry_get(
            fd,
            key("FontFile2"@),
        ) matches Some(PdfValue::Reference(_))) || (entry_get(fd, key("FontFile3"@)) matches Some(
            PdfValue::Reference(_),
        )),
        None => false,
    }
}

/// A font's description: its base font, subtype and whether it is
/// embedded, as far as known; `?` when none is.
pub open spec fn font_text(objs: Seq<(ObjRef, PdfValue)>, r: ObjRef) -> Seq<char> {
    match any_dict_at(objs, r) {
        None => "?"@,
        Some(d) => {
            let parts = (match name_text(d, "BaseFont"@) {
                Some(t) => seq![t],
                None => Seq::empty(),
            }) + (match name_text(d, "Subtype"@) {
                Some(t) => seq![t],
                None => Seq::empty(),
            }) + (if has_font_file(objs, d) {
                seq!["embedded"@]
            } else {
                Seq::empty()
            });
            if parts.len() == 0 {
                "?"@
            } else {
                join_with(parts, ", "@)
            }
        },
    }
}

/// A color space's description: a name, an array's first name (or its
/// size), what a reference leads to (or the reference itself).
pub open spec fn space_text(objs: Seq<(ObjRef, PdfValue)>, v: PdfValue) -> Seq<char> {
    match v {
        PdfValue::Name(n) => utf8_lossy(n@),
        PdfValue::Array(items) => array_space_text(items@),
        PdfValue::Reference(r) => match get_object(objs, r) {
            Some(i) => match objs[i].1 {
                PdfValue::Name(n) => utf8_lossy(n@),
                PdfValue::Array(items) => array_space_text(items@),
                _ => "obj "@ + dec(r.num as nat),
            },
            None => dec(r.num as nat) + " "@ + dec(r.gen as nat) + " R"@,
        },
        _ => "?"@,
    }
}

pub open spec fn array_space_text(items: Seq<PdfValue>) -> Seq<char> {
    if items.len() > 0 && items[0] is Name {
        utf8_lossy(items[0]->Name_0@)
    } else {
        "["@ + dec(items.len()) + " items]"@
    }
}

pub open spec fn int_entry(es: Seq<(Vec<u8>, PdfValue)>, k: Seq<char>) -> int {
    match entry_get(es, key(k)) {
        Some(PdfValue::Integer(i)) => i as int,
        _ => 0,
    }
}

/// An external object's description: an image's size and color space, or
/// another kind's subtype; `?` for what is not a stream.
pub open spec fn xobject_text(objs: Seq<(ObjRef, PdfValue)>, r: ObjRef) -> Seq<char> {
    match get_object(objs, r) {
        Some(i) => match objs[i].1 {
            PdfValue::Stream { dict, content } => {
                let sub = match name_text(dict@, "Subtype"@) {
                    Some(t) => t,
                    None => "?"@,
                };
                if sub == "Image"@ {
                    "Image, "@ + dec_int(int_entry(dict@, "Width"@)) + "x"@ + dec_int(int_entry(dict@, "Height"@))
                        + ", "@ + match entry_get(dict@, key("ColorSpace"@)) {
                        Some(v) => space_text(objs, v),
                        None => "-"@,
                    }
                } else {
                    sub
                }
            },
            _ => "?"@,
        },
        None => "?"@,
    }
}

fn name_entry(es: &Vec<(Vec<u8>, PdfValue)>, k: &str) -> (r: Option<String>)
    ensures
        match r {
            Some(t) => name_text(es@, k@) == Some(t@),
            None => name_text(es@, k@) is None,
        },
{
    match find_entry(es, k.as_bytes()) {
        Some(j) => match &es[j].1 {
            PdfValue::Name(n) => Some(lossy_string(n.as_slice())),
            _ => None,
        },
        None => None,
    }
}

fn is_ref_entry(es: &Vec<(Vec<u8>, PdfValue)>, k: &str) -> (r: bool)
    ensures
        r == (entry_get(es@, key(k@)) matches Some(PdfValue::Reference(_))),
{
    match find_entry(es, k.as_bytes()) {
        Some(j) => match &es[j].1 {
            PdfValue::Reference(_) => true,
            _ => false,
        },
        None => false,
    }
}

fn font_file_present(objs: &Vec<(ObjRef, PdfValue)>, font: &Vec<(Vec<u8>, PdfValue)>) -> (r: bool)
    requires
        objects_sorted(objs@),
    ensures
        r == has_font_file(objs@, font@),
{
    let fdv = match find_entry(font, "FontDescriptor".as_bytes()) {
        Some(j) => Some(&font[j].1),
        None => None,
    };
    match resolve_dict_value(objs, fdv) {
        Some(fd) => is_ref_entry(fd, "FontFile") || is_ref_entry(fd, "FontFile2") || is_ref_entry(fd, "FontFile3"),
        None => false,
    }
}

/// A font's description for the resource listing.
pub fn font_detail(doc: &PdfDoc, id: ObjRef) -> (r: String)
    requires
        objects_sorted(doc.objects@),
    ensures
        r@ == font_text(doc.objects@, id),
{
    let objs = &doc.objects;
    let d = match resolve_object(objs, id) {
        Some(i) => match &objs[i].1 {
            PdfValue::Dictionary(es) => es,
            PdfValue::Stream { dict, content } => dict,
            _ => {
                let mut q = String::new();
                push_str(&mut q, "?");
                return q;
            },
        },
        None => {
            let mut q = String::new();
            push_str(&mut q, "?");
            return q;
        },
    };
    let mut parts: Vec<String> = Vec::new();
    let ghost p0 = views(parts@);
    if let Some(t) = name_entry(d, "BaseFont") {
        push_line(&mut parts, t);
    }
    if let Some(t) = name_entry(d, "Subtype") {
        push_line(&mut parts, t);
    }
    if font_file_present(objs, d) {
        let mut e = String::new();
        push_str(&mut e, "embedded");
        push_line(&mut parts, e);
    }
    assert(any_dict_at(objs@, id) == Some(d@));
    assert(views(parts@) =~= (match name_text(d@, "BaseFont"@) {
        Some(t) => seq![t],
        None => Seq::empty(),
    }) + (match name_text(d@, "Subtype"@) {
        Some(t) => seq![t],
        None => Seq::empty(),
    }) + (if has_font_file(objs@, d@) {
        seq!["embedded"@]
    } else {
        Seq::empty()
    }));
    let mut s = String::new();
    if parts.len() == 0 {
        push_str(&mut s, "?");
    } else {
        push_joined(&mut s, &parts, ", ");
    }
    s
}

fn array_space_string(items: &Vec<PdfValue>) -> (r: String)
    ensures
        r@ == array_space_text(items@),
{
    if items.len() > 0 {
        if let PdfValue::Name(n) = &items[0] {
            return lossy_string(n.as_slice());
        }
    }
    let mut s = String::new();
    push_str(&mut s, "[");
    push_dec(&mut s, items.len() as u64);
    push_str(&mut s, " items]");
    s
}

/// A color space's description for the resource listing.
pub fn format_color_space(v: &PdfValue, doc: &PdfDoc) -> (r: String)
    requires
        objects_sorted(doc.objects@),
    ensures
        r@ == space_text(doc.objects@, *v),
{
    match v {
        PdfValue::Name(n) => lossy_string(n.as_slice()),
        PdfValue::Array(items) => array_space_string(items),
        PdfValue::Reference(r) => match resolve_object(&doc.objects, *r) {
            Some(i) => match &doc.objects[i].1 {
                PdfValue::Name(n) => lossy_string(n.as_slice()),
                PdfValue::Array(items) => array_space_string(items),
                _ => {
                    let mut s = String::new();
                    push_str(&mut s, "obj ");
                    push_dec(&mut s, r.num as u64);
                    s
                },
            },
            None => {
                let mut s = String::new();
                push_dec(&mut s, r.num as u64);
                push_str(&mut s, " ");
                push_dec(&mut s, r.gen as u64);
                push_str(&mut s, " R");
                s
            },
        },
        _ => {
            let mut s = String::new();
            push_str(&mut s, "?");
            s
        },
    }
}

fn int_value(es: &Vec<(Vec<u8>, PdfValue)>, k: &str) -> (r: i64)
    ensures
        r as int == int_entry(es@, k@),
{
    match find_entry(es, k.as_bytes()) {
        Some(j) => match &es[j].1 {
            PdfValue::Integer(i) => *i,
            _ => 0,
        },
        None => 0,
    }
}

/// An external object's description for the resource listing.
pub fn xobject_detail(doc: &PdfDoc, id: ObjRef) -> (r: String)
    requires
        objects_sorted(doc.objects@),
    ensures
        r@ == xobject_text(doc.objects@, id),
{
    let objs = &doc.objects;
    let mut q = String::new();
    match resolve_object(objs, id) {
        Some(i) => match &objs[i].1 {
            PdfValue::Stream { dict, content } => {
                let sub = match name_entry(dict, "Subtype") {
                    Some(t) => t,
                    None => {
                        let mut t = String::new();
                        push_str(&mut t, "?");
                        t
                    },
                };
                proof {
                    reveal_strlit("Image");
                }
                if crate::textbuf::str_eq(sub.as_str(), "Image") {
                    push_str(&mut q, "Image, ");
                    push_dec_i64(&mut q, int_value(dict, "Width"));
                    push_str(&mut q, "x");
                    push_dec_i64(&mut q, int_value(dict, "Height"));
                    push_str(&mut q, ", ");
                    match find_entry(dict, "ColorSpace".as_bytes()) {
                        Some(j) => {
                            let t = format_color_space(&dict[j].1, doc);
                            push_str(&mut q, t.as_str());
                        },
                        None => push_str(&mut q, "-"),
                    }
                    q
                } else {
                    sub
                }
            },
            _ => {
                push_str(&mut q, "?");
                q
            },
        },
        None => {
            push_str(&mut q, "?");
            q
        },
    }
}

/// A named resource: its name with a slash, the object it refers to, and
/// a description.
pub struct ResourceEntry {
    pub name: String,
    pub object_id: Option<ObjRef>,
    pub detail: String,
}

/// The resources of a page by category, each in name order.
pub struct PageResources {
    pub fonts: Vec<ResourceEntry>,
    pub xobjects: Vec<ResourceEntry>,
    pub ext_gstate: Vec<ResourceEntry>,
    pub color_spaces: Vec<ResourceEntry>,
}

pub type EntrySpec = (Seq<char>, Option<ObjRef>, Seq<char>);

pub open spec fn entry_views(s: Seq<ResourceEntry>) -> Seq<EntrySpec> {
    s.map_values(|e: ResourceEntry| (e.name@, e.object_id, e.detail@))
}

/// The categories of resources.
#[derive(Clone, Copy, PartialEq, Eq, Structural)]
pub enum ResKind {
    Font,
    XObject,
    ExtGState,
    ColorSpace,
}

/// The keys of the objects' dictionaries in a listing: the number of keys
/// of a dictionary or a stream's dictionary, else zero.
pub open spec fn key_count(objs: Seq<(ObjRef, PdfValue)>, r: ObjRef) -> nat {
    match any_dict_at(objs, r) {
        Some(d) => d.len(),
        None => 0,
    }
}

/// One entry of a category's dictionary as listed, or none when it is
/// skipped (only fonts and color spaces list entries that are not
/// references).
pub open spec fn entry_of(objs: Seq<(ObjRef, PdfValue)>, kind: ResKind, k: Seq<u8>, v: PdfValue) -> Option<EntrySpec> {
    let name = "/"@ + utf8_lossy(k);
    match kind {
        ResKind::Font => match v {
            PdfValue::Reference(r) => Some((name, Some(r), font_text(objs, r))),
            _ => Some((name, None, "inline"@)),
        },
        ResKind::XObject => match v {
            PdfValue::Reference(r) => Some((name, Some(r), xobject_text(objs, r))),
            _ => None,
        },
        ResKind::ExtGState => match v {
            PdfValue::Reference(r) => Some((name, Some(r), dec(key_count(objs, r)) + " keys"@)),
            _ => None,
        },
        ResKind::ColorSpace => Some(
            (
                name,
                match v {
                    PdfValue::Reference(r) => Some(r),
                    _ => None,
                },
                space_text(objs, v),
            ),
        ),
    }
}

/// The listed entries among the first `n`, in dictionary order.
pub open spec fn entries_of(objs: Seq<(ObjRef, PdfValue)>, kind: ResKind, es: Seq<(Vec<u8>, PdfValue)>, n: int) -> Seq<
    EntrySpec,
>
    decreases n,
{
    if n <= 0 {
        Seq::empty()
    } else {
        entries_of(objs, kind, es, n - 1) + match entry_of(objs, kind, es[n - 1].0@, es[n - 1].1) {
            Some(e) => seq![e],
            None => Seq::empty(),
        }
    }
}

/// Placing an entry after every entry whose name does not sort after it.
pub open spec fn insert_by_name(t: Seq<EntrySpec>, x: EntrySpec) -> Seq<EntrySpec>
    decreases t.len(),
{
    if t.len() == 0 {
        seq![x]
    } else if str_lt(x.0, t[0].0) {
        seq![x] + t
    } else {
        seq![t[0]] + insert_by_name(t.drop_first(), x)
    }
}

/// Entries in name order; equal names keep their order.
pub open spec fn by_name(s: Seq<EntrySpec>) -> Seq<EntrySpec>
    decreases s.len(),
{
    if s.len() == 0 {
        Seq::empty()
    } else {
        insert_by_name(by_name(s.drop_last()), s.last())
    }
}

/// A category of the page's resources, as listed.
pub open spec fn category(objs: Seq<(ObjRef, PdfValue)>, res: Option<Seq<(Vec<u8>, PdfValue)>>, kind: ResKind, k: Seq<
    char,
>) -> Seq<EntrySpec> {
    match res {
        None => Seq::empty(),
        Some(rd) => match resolved_dict(objs, entry_get(rd, key(k))) {
            None => Seq::empty(),
            Some(cd) => by_name(entries_of(objs, kind, cd, cd.len() as int)),
        },
    }
}

proof fn lemma_insert_by_name_at(t: Seq<EntrySpec>, x: EntrySpec, p: int)
    requires
        0 <= p <= t.len(),
        forall|i: int| 0 <= i < p ==> !str_lt(x.0, (#[trigger] t[i]).0),
    ensures
        insert_by_name(t, x) == t.take(p) + insert_by_name(t.skip(p), x),
    decreases p,
{
    if p > 0 {
        let rest = t.drop_first();
        assert forall|i: int| 0 <= i < p - 1 implies !str_lt(x.0, (#[trigger] rest[i]).0) by {
            assert(rest[i] == t[i + 1]);
        }
        lemma_insert_by_name_at(rest, x, p - 1);
        assert(rest.skip(p - 1) =~= t.skip(p));
        assert(t.take(p) =~= seq![t[0]] + rest.take(p - 1));
    } else {
        assert(t.skip(0) =~= t);
        assert(t.take(0) + insert_by_name(t.skip(0), x) =~= insert_by_name(t, x));
    }
}

fn insert_entry(v: &mut Vec<ResourceEntry>, e: ResourceEntry)
    ensures
        entry_views(final(v)@) == insert_by_name(entry_views(old(v)@), (e.name@, e.object_id, e.detail@)),
{
    let ghost t = entry_views(v@);
    let ghost x = (e.name@, e.object_id, e.detail@);
    let mut p: usize = 0;
    while p < v.len()
        invariant
            p <= v@.len(),
            t == entry_views(v@),
            x == (e.name@, e.object_id, e.detail@),
            forall|i: int| 0 <= i < p ==> !str_lt(x.0, (#[trigger] t[i]).0),
        ensures
            p <= v@.len(),
            t == entry_views(v@),
            forall|i: int| 0 <= i < p ==> !str_lt(x.0, (#[trigger] t[i]).0),
            p < v@.len() ==> str_lt(x.0, t[p as int].0),
        decreases v.len() - p,
    {
        if text_lt(e.name.as_str(), v[p].name.as_str()) {
            break;
        }
        p = p + 1;
    }
    proof {
        lemma_insert_by_name_at(t, x, p as int);
        let rest = t.skip(p as int);
        if p < v@.len() {
            assert(rest[0] == t[p as int]);
        }
        assert(insert_by_name(rest, x) == seq![x] + rest);
    }
    v.insert(p, e);
    assert(entry_views(v@) =~= t.take(p as int) + insert_by_name(t.skip(p as int), x));
}

fn slash_name(k: &Vec<u8>) -> (r: String)
    ensures
        r@ == "/"@ + utf8_lossy(k@),
{
    let mut s = String::new();
    push_str(&mut s, "/");
    let t = lossy_string(k.as_slice());
    push_str(&mut s, t.as_str());
    s
}

fn make_entry(doc: &PdfDoc, kind: ResKind, k: &Vec<u8>, v: &PdfValue) -> (r: Option<ResourceEntry>)
    requires
        objects_sorted(doc.objects@),
    ensures
        match r {
            Some(e) => entry_of(doc.objects@, kind, k@, *v) == Some((e.name@, e.object_id, e.detail@)),
            None => entry_of(doc.objects@, kind, k@, *v) is None,
        },
{
    let name = slash_name(k);
    match kind {
        ResKind::Font => match v {
            PdfValue::Reference(r) => Some(ResourceEntry { name, object_id: Some(*r), detail: font_detail(doc, *r) }),
            _ => {
                let mut d = String::new();
                push_str(&mut d, "inline");
                Some(ResourceEntry { name, object_id: None, detail: d })
            },
        },
        ResKind::XObject => match v {
            PdfValue::Reference(r) => Some(ResourceEntry { name, object_id: Some(*r), detail: xobject_detail(doc, *r) }),
            _ => None,
        },
        ResKind::ExtGState => match v {
            PdfValue::Reference(r) => {
                let n: usize = match resolve_object(&doc.objects, *r) {
                    Some(i) => match &doc.objects[i].1 {
                        PdfValue::Dictionary(es) => es.len(),
                        PdfValue::Stream { dict, content } => dict.len(),
                        _ => 0,
                    },
                    None => 0,
                };
                let mut d = String::new();
                push_dec(&mut d, n as u64);
                push_str(&mut d, " keys");
                Some(ResourceEntry { name, object_id: Some(*r), detail: d })
            },
            _ => None,
        },
        ResKind::ColorSpace => {
            let object_id = match v {
                PdfValue::Reference(r) => Some(*r),
                _ => None,
            };
            Some(ResourceEntry { name, object_id, detail: format_color_space(v, doc) })
        },
    }
}

fn collect_category(doc: &PdfDoc, res: Option<&Vec<(Vec<u8>, PdfValue)>>, kind: ResKind, k: &str) -> (r: Vec<ResourceEntry>)
    requires
        objects_sorted(doc.objects@),
    ensures
        entry_views(r@) == category(
            doc.objects@,
            match res {
                Some(x) => Some(x@),
                None => None,
            },
            kind,
            k@,
        ),
{
    let mut out: Vec<ResourceEntry> = Vec::new();
    let rd = match res {
        Some(rd) => rd,
        None => {
            assert(entry_views(out@) =~= Seq::<EntrySpec>::empty());
            return out;
        },
    };
    let cv = match find_entry(rd, k.as_bytes()) {
        Some(j) => Some(&rd[j].1),
        None => None,
    };
    let cd = match resolve_dict_value(&doc.objects, cv) {
        Some(cd) => cd,
        None => {
            assert(entry_views(out@) =~= Seq::<EntrySpec>::empty());
            return out;
        },
    };
    let ghost objs = doc.objects@;
    let mut i: usize = 0;
    assert(entry_views(out@) =~= by_name(entries_of(objs, kind, cd@, 0)));
    while i < cd.len()
        invariant
            objects_sorted(doc.objects@),
            objs == doc.objects@,
            i <= cd@.len(),
            entry_views(out@) == by_name(entries_of(objs, kind, cd@, i as int)),
        decreases cd.len() - i,
    {
        match make_entry(doc, kind, &cd[i].0, &cd[i].1) {
            Some(e) => {
                let ghost ev = (e.name@, e.object_id, e.detail@);
                insert_entry(&mut out, e);
                assert(entries_of(objs, kind, cd@, i + 1) =~= entries_of(objs, kind, cd@, i as int).push(ev));
                assert(entries_of(objs, kind, cd@, i + 1).drop_last() =~= entries_of(objs, kind, cd@, i as int));
            },
            None => {
                assert(entries_of(objs, kind, cd@, i + 1) =~= entries_of(objs, kind, cd@, i as int));
            },
        }
        i = i + 1;
    }
    out
}

/// The resources a page has or inherits, by category, each in name order:
/// fonts (described, or `inline` when not a reference), external objects,
/// graphics states (by their number of keys) and color spaces.
pub fn collect_page_resources(doc: &PdfDoc, page: ObjRef) -> (r: PageResources)
    requires
        objects_sorted(doc.objects@),
    ensures
        entry_views(r.fonts@) == category(doc.objects@, page_resources(doc.objects@, page), ResKind::Font, "Font"@),
        entry_views(r.xobjects@) == category(
            doc.objects@,
            page_resources(doc.objects@, page),
            ResKind::XObject,
            "XObject"@,
        ),
        entry_views(r.ext_gstate@) == category(
            doc.objects@,
            page_resources(doc.objects@, page),
            ResKind::ExtGState,
            "ExtGState"@,
        ),
        entry_views(r.color_spaces@) == category(
            doc.objects@,
            page_resources(doc.objects@, page),
            ResKind::ColorSpace,
            "ColorSpace"@,
        ),
{
    let res = resolve_page_resources(doc, page);
    PageResources {
        fonts: collect_category(doc, res, ResKind::Font, "Font"),
        xobjects: collect_category(doc, res, ResKind::XObject, "XObject"),
        ext_gstate: collect_category(doc, res, ResKind::ExtGState, "ExtGState"),
        color_spaces: collect_category(doc, res, ResKind::ColorSpace, "ColorSpace"),
    }
}

} // verus!
