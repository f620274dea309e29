//! Structural validation: broken and unreachable references, required keys,
//! stream lengths, the page tree, content syntax, font dictionaries, name
//! trees and duplicate objects.
use vstd::prelude::*;
use vstd::utf8::encode_utf8;
use std::borrow::Cow;
use crate::model::{
    as_ref, bytes_eq, collect_refs, dict_filter_names, dict_of, entry_get, find_entry, get_object,
    objects_sorted, pdf_stream_of, refs_of, resolve_object, ObjRef, PdfDoc, PdfValue,
    collect_entry_refs, find_object, lemma_distinct_below, lemma_lookup_found, lemma_lookup_own, lookup,
    refs_of_entries,
};
use crate::stream::{cow_bytes, decode_stream, run_filters, spec_filter_names, FilterEntry, PdfStream};
use crate::textbuf::{dec, dec_int, push_dec, push_dec_i64, push_dec_u128, push_line, push_str, views};

verus! {

/// How serious an issue is.
#[derive(Clone, Copy, Debug, PartialEq, Eq, Structural)]
pub enum ValidationLevel {
    Error,
    Warn,
    Info,
}

/// One finding.
#[derive(Debug)]
pub struct ValidationIssue {
    pub level: ValidationLevel,
    pub message: String,
}

/// An issue as a level and a message text.
pub type IssueSpec = (ValidationLevel, Seq<char>);

pub open spec fn issue_views(s: Seq<ValidationIssue>) -> Seq<IssueSpec> {
    s.map_values(|i: ValidationIssue| (i.level, i.message@))
}

fn push_issue(issues: &mut Vec<ValidationIssue>, level: ValidationLevel, message: String)
    ensures
        issue_views(final(issues)@) == issue_views(old(issues)@).push((level, message@)),
{
    let ghost m = message@;
    issues.push(ValidationIssue { level, message });
    assert(issue_views(issues@) =~= issue_views(old(issues)@).push((level, m)));
}

/// The bytes of a key name.
pub open spec fn key(name: Seq<char>) -> Seq<u8> {
    encode_utf8(name)
}

// ── Broken references ────────────────────────────────────────────────

pub open spec fn broken_message(id: ObjRef, r: ObjRef) -> Seq<char> {
    "Object "@ + dec(id.num as nat) + " "@ + dec(id.gen as nat) + ": references non-existent object "@
        + dec(r.num as nat) + " "@ + dec(r.gen as nat)
}

/// The references among `rs` that do not resolve, in order.
pub open spec fn broken_refs(objs: Seq<(ObjRef, PdfValue)>, rs: Seq<ObjRef>) -> Seq<ObjRef>
    decreases rs.len(),
{
    if rs.len() == 0 {
        Seq::empty()
    } else {
        let prev = broken_refs(objs, rs.drop_last());
        if get_object(objs, rs.last()) is None {
            prev.push(rs.last())
        } else {
            prev
        }
    }
}

/// For the references `rs` of object `id`, an error for each that does not
/// resolve, in order.
pub open spec fn broken_in(objs: Seq<(ObjRef, PdfValue)>, id: ObjRef, rs: Seq<ObjRef>) -> Seq<IssueSpec> {
    broken_refs(objs, rs).map_values(|r: ObjRef| (ValidationLevel::Error, broken_message(id, r)))
}

/// The references in a value (array items and dictionary values followed,
/// depth first) that name no object, in order.
pub fn collect_broken_refs(v: &PdfValue, doc: &PdfDoc) -> (r: Vec<ObjRef>)
    requires
        objects_sorted(doc.objects@),
    ensures
        r@ == broken_refs(doc.objects@, refs_of(*v)),
{
    let mut rs: Vec<ObjRef> = Vec::new();
    collect_refs(v, &mut rs);
    assert(rs@ =~= refs_of(*v));
    let mut out: Vec<ObjRef> = Vec::new();
    let mut j: usize = 0;
    assert(rs@.take(0) =~= Seq::<ObjRef>::empty());
    while j < rs.len()
        invariant
            objects_sorted(doc.objects@),
            j <= rs@.len(),
            out@ == broken_refs(doc.objects@, rs@.take(j as int)),
        decreases rs.len() - j,
    {
        assert(rs@.take(j + 1).drop_last() =~= rs@.take(j as int));
        assert(rs@.take(j + 1).last() == rs@[j as int]);
        if resolve_object(&doc.objects, rs[j]).is_none() {
            out.push(rs[j]);
        }
        j = j + 1;
    }
    assert(rs@.take(rs@.len() as int) =~= rs@);
    out
}

/// The broken-reference errors of the first `n` objects.
pub open spec fn broken_issues(objs: Seq<(ObjRef, PdfValue)>, n: int) -> Seq<IssueSpec>
    decreases n,
{
    if n <= 0 {
        Seq::empty()
    } else {
        broken_issues(objs, n - 1) + broken_in(objs, objs[n - 1].0, refs_of(objs[n - 1].1))
    }
}

fn pair_message(prefix: &str, a: u32, b: u16, middle: &str, c: u32, d: u16) -> (r: String)
    ensures
        r@ == prefix@ + dec(a as nat) + " "@ + dec(b as nat) + middle@ + dec(c as nat) + " "@ + dec(
            d as nat,
        ),
{
    let mut s = String::new();
    push_str(&mut s, prefix);
    push_dec(&mut s, a as u64);
    push_str(&mut s, " ");
    push_dec(&mut s, b as u64);
    push_str(&mut s, middle);
    push_dec(&mut s, c as u64);
    push_str(&mut s, " ");
    push_dec(&mut s, d as u64);
    s
}

/// Errors for references to objects that do not exist (or whose chain of
/// references does not end in an object).
pub fn check_broken_references(doc: &PdfDoc, issues: &mut Vec<ValidationIssue>)
    requires
        objects_sorted(doc.objects@),
    ensures
        issue_views(final(issues)@) == issue_views(old(issues)@) + broken_issues(
            doc.objects@,
            doc.objects@.len() as int,
        ),
{
    let objs = &doc.objects;
    let mut k: usize = 0;
    assert(issue_views(issues@) =~= issue_views(old(issues)@) + broken_issues(objs@, 0));
    while k < objs.len()
        invariant
            objects_sorted(objs@),
            objs@ == doc.objects@,
            k <= objs@.len(),
            issue_views(issues@) == issue_views(old(issues)@) + broken_issues(objs@, k as int),
        decreases objs.len() - k,
    {
        let id = objs[k].0;
        let bs = collect_broken_refs(&objs[k].1, doc);
        let ghost base = issue_views(issues@);
        let ghost f = |r: ObjRef| (ValidationLevel::Error, broken_message(id, r));
        let mut j: usize = 0;
        assert(base =~= base + bs@.take(0).map_values(f));
        while j < bs.len()
            invariant
                j <= bs@.len(),
                f == (|r: ObjRef| (ValidationLevel::Error, broken_message(id, r))),
                issue_views(issues@) == base + bs@.take(j as int).map_values(f),
            decreases bs.len() - j,
        {
            let r = bs[j];
            let m = pair_message("Object ", id.num, id.gen, ": references non-existent object ", r.num, r.gen);
            push_issue(issues, ValidationLevel::Error, m);
            assert(bs@.take(j + 1).map_values(f) =~= bs@.take(j as int).map_values(f).push(f(r)));
            assert(issue_views(issues@) =~= base + bs@.take(j + 1).map_values(f));
            j = j + 1;
        }
        assert(bs@.take(bs@.len() as int) =~= bs@);
        assert(issue_views(issues@) =~= issue_views(old(issues)@) + broken_issues(objs@, k + 1));
        k = k + 1;
    }
}

// ── Stream lengths ───────────────────────────────────────────────────

/// A stream whose integer `/Length` differs from its content's length.
pub open spec fn length_issue(id: ObjRef, v: PdfValue) -> Seq<IssueSpec> {
    match v {
        PdfValue::Stream { dict, content } => match entry_get(dict@, key("Length"@)) {
            Some(PdfValue::Integer(declared)) => if declared != (content@.len() as i64) {
                seq![
                    (
                        ValidationLevel::Warn,
                        "Object "@ + dec(id.num as nat) + " "@ + dec(id.gen as nat) + ": /Length is "@
                            + dec_int(declared as int) + " but stream content is "@ + dec_int(
                            (content@.len() as i64) as int,
                        ) + " bytes"@,
                    ),
                ]
            } else {
                Seq::empty()
            },
            _ => Seq::empty(),
        },
        _ => Seq::empty(),
    }
}

/// A stream draws a `/Length` warning exactly when its integer `/Length`
/// is not the number of bytes of its content, and the page tree draws a
/// `/Count` error exactly when its declared count is not the number of
/// pages.
pub proof fn law_declared_sizes_checked_exactly(
    id: ObjRef,
    dict: Vec<(Vec<u8>, PdfValue)>,
    content: Vec<u8>,
    declared: i64,
    d: PdfDoc,
    page_count: nat,
)
    requires
        entry_get(dict@, key("Length"@)) == Some(PdfValue::Integer(declared)),
        content@.len() <= i64::MAX,
    ensures
        length_issue(id, PdfValue::Stream { dict, content }).len() == (if declared == content@.len() {
            0int
        } else {
            1int
        }),
        count_issues(d, page_count).len() == (if declared_count(d) is Some
            && declared_count(d)->0 != page_count {
            1int
        } else {
            0int
        }),
{
    assert((content@.len() as i64) as int == content@.len());
}

pub open spec fn length_issues(objs: Seq<(ObjRef, PdfValue)>, n: int) -> Seq<IssueSpec>
    decreases n,
{
    if n <= 0 {
        Seq::empty()
    } else {
        length_issues(objs, n - 1) + length_issue(objs[n - 1].0, objs[n - 1].1)
    }
}

/// Warnings for streams whose `/Length` is not their content's length.
pub fn check_stream_lengths(doc: &PdfDoc, issues: &mut Vec<ValidationIssue>)
    ensures
        issue_views(final(issues)@) == issue_views(old(issues)@) + length_issues(
            doc.objects@,
            doc.objects@.len() as int,
        ),
{
    let objs = &doc.objects;
    let mut k: usize = 0;
    assert(issue_views(issues@) =~= issue_views(old(issues)@) + length_issues(objs@, 0));
    while k < objs.len()
        invariant
            k <= objs@.len(),
            issue_views(issues@) == issue_views(old(issues)@) + length_issues(objs@, k as int),
        decreases objs.len() - k,
    {
        let id = objs[k].0;
        let ghost base = issue_views(issues@);
        if let PdfValue::Stream { dict, content } = &objs[k].1 {
            if let Some(j) = find_entry(dict, "Length".as_bytes()) {
                if let PdfValue::Integer(declared) = &dict[j].1 {
                    let actual = content.len() as i64;
                    if *declared != actual {
                        let mut m = String::new();
                        push_str(&mut m, "Object ");
                        push_dec(&mut m, id.num as u64);
                        push_str(&mut m, " ");
                        push_dec(&mut m, id.gen as u64);
                        push_str(&mut m, ": /Length is ");
                        push_dec_i64(&mut m, *declared);
                        push_str(&mut m, " but stream content is ");
                        push_dec_i64(&mut m, actual);
                        push_str(&mut m, " bytes");
                        push_issue(issues, ValidationLevel::Warn, m);
                    }
                }
            }
        }
        assert(issue_views(issues@) =~= base + length_issue(objs@[k as int].0, objs@[k as int].1));
        k = k + 1;
    }
}

// ── Required keys ────────────────────────────────────────────────────

/// The trailer's `/Root`, when it is a reference.
pub open spec fn root_ref(d: PdfDoc) -> Option<ObjRef> {
    as_ref(entry_get(d.trailer@, key("Root"@)))
}

/// The entries of the object an id names, when it is a dictionary (not a
/// stream).
pub open spec fn plain_dict_at(objs: Seq<(ObjRef, PdfValue)>, r: ObjRef) -> Option<Seq<(Vec<u8>, PdfValue)>> {
    match get_object(objs, r) {
        Some(i) => match objs[i].1 {
            PdfValue::Dictionary(es) => Some(es@),
            _ => None,
        },
        None => None,
    }
}

/// The catalog must exist with `/Pages`; the trailer must refer to it.
pub open spec fn catalog_issues(d: PdfDoc) -> Seq<IssueSpec> {
    match root_ref(d) {
        None => seq![(ValidationLevel::Error, "Trailer missing /Root reference"@)],
        Some(r) => match plain_dict_at(d.objects@, r) {
            Some(cat) => if entry_get(cat, key("Pages"@)) is None {
                seq![(ValidationLevel::Error, "Catalog missing required /Pages key"@)]
            } else {
                Seq::empty()
            },
            None => Seq::empty(),
        },
    }
}

/// A page, or an ancestor within 20 steps up its `/Parent` chain, has
/// `/MediaBox`.
pub open spec fn media_walk(objs: Seq<(ObjRef, PdfValue)>, cur: Option<ObjRef>, depth: nat) -> bool
    decreases 21 - depth,
{
    match cur {
        None => false,
        Some(id) => if depth > 20 {
            false
        } else {
            match get_object(objs, id) {
                None => false,
                Some(i) => match dict_of(objs[i].1) {
                    None => false,
                    Some(d) => if entry_get(d, key("MediaBox"@)) is Some {
                        true
                    } else {
                        media_walk(objs, as_ref(entry_get(d, key("Parent"@))), depth + 1)
                    },
                },
            }
        },
    }
}

pub open spec fn media_issues(objs: Seq<(ObjRef, PdfValue)>, pages: Seq<ObjRef>) -> Seq<IssueSpec>
    decreases pages.len(),
{
    if pages.len() == 0 {
        Seq::empty()
    } else {
        let prev = media_issues(objs, pages.drop_last());
        let p = pages.last();
        if media_walk(objs, Some(p), 0) {
            prev
        } else {
            prev.push(
                (
                    ValidationLevel::Error,
                    "Page "@ + dec(pages.len()) + " (object "@ + dec(p.num as nat)
                        + "): missing /MediaBox (not found in page or parent chain)"@,
                ),
            )
        }
    }
}

/// The value of a key in the entries of the object at position `i`, when
/// it is a dictionary or a stream.
fn dict_at(objs: &Vec<(ObjRef, PdfValue)>, i: usize) -> (r: Option<&Vec<(Vec<u8>, PdfValue)>>)
    requires
        i < objs@.len(),
    ensures
        match r {
            Some(es) => dict_of(objs@[i as int].1) == Some(es@),
            None => dict_of(objs@[i as int].1) is None,
        },
{
    match &objs[i].1 {
        PdfValue::Dictionary(es) => Some(es),
        PdfValue::Stream { dict, content } => Some(dict),
        _ => None,
    }
}

pub(crate) fn ref_value(es: &Vec<(Vec<u8>, PdfValue)>, k: &str) -> (r: Option<ObjRef>)
    ensures
        r == as_ref(entry_get(es@, key(k@))),
{
    match find_entry(es, k.as_bytes()) {
        Some(j) => match &es[j].1 {
            PdfValue::Reference(t) => Some(*t),
            _ => None,
        },
        None => None,
    }
}

fn has_media_box(objs: &Vec<(ObjRef, PdfValue)>, page: ObjRef) -> (r: bool)
    requires
        objects_sorted(objs@),
    ensures
        r == media_walk(objs@, Some(page), 0),
{
    let mut cur: Option<ObjRef> = Some(page);
    let mut depth: usize = 0;
    while depth <= 20
        invariant
            objects_sorted(objs@),
            depth <= 21,
            media_walk(objs@, Some(page), 0) == media_walk(objs@, cur, depth as nat),
        decreases 21 - depth,
    {
        let id = match cur {
            None => {
                return false;
            },
            Some(id) => id,
        };
        let i = match resolve_object(objs, id) {
            None => {
                return false;
            },
            Some(i) => i,
        };
        let d = match dict_at(objs, i) {
            None => {
                return false;
            },
            Some(d) => d,
        };
        if find_entry(d, "MediaBox".as_bytes()).is_some() {
            return true;
        }
        cur = ref_value(d, "Parent");
        depth = depth + 1;
    }
    proof {
        if let Some(id) = cur {
            assert(depth > 20);
        }
    }
    false
}

/// A page has `/MediaBox`, itself or on an ancestor within 20 steps up
/// its `/Parent` chain.
pub fn page_has_media_box(doc: &PdfDoc, page: ObjRef) -> (r: bool)
    requires
        objects_sorted(doc.objects@),
    ensures
        r == media_walk(doc.objects@, Some(page), 0),
{
    has_media_box(&doc.objects, page)
}

/// Errors for a missing catalog or `/Pages`, and for pages without a
/// `/MediaBox` of their own or inherited; `pages` lists the document's
/// pages in order.
pub fn check_required_keys(doc: &PdfDoc, pages: &Vec<ObjRef>, issues: &mut Vec<ValidationIssue>)
    requires
        objects_sorted(doc.objects@),
    ensures
        issue_views(final(issues)@) == issue_views(old(issues)@) + catalog_issues(*doc) + media_issues(
            doc.objects@,
            pages@,
        ),
{
    let objs = &doc.objects;
    match ref_value(&doc.trailer, "Root") {
        None => {
            let mut m = String::new();
            push_str(&mut m, "Trailer missing /Root reference");
            push_issue(issues, ValidationLevel::Error, m);
        },
        Some(r) => {
            if let Some(i) = resolve_object(objs, r) {
                if let PdfValue::Dictionary(cat) = &objs[i].1 {
                    if find_entry(cat, "Pages".as_bytes()).is_none() {
                        let mut m = String::new();
                        push_str(&mut m, "Catalog missing required /Pages key");
                        push_issue(issues, ValidationLevel::Error, m);
                    }
                }
            }
        },
    }
    let ghost base = issue_views(issues@);
    assert(base =~= issue_views(old(issues)@) + catalog_issues(*doc));
    let mut k: usize = 0;
    assert(pages@.take(0) =~= Seq::<ObjRef>::empty());
    assert(base =~= base + media_issues(objs@, pages@.take(0)));
    while k < pages.len()
        invariant
            objects_sorted(objs@),
            k <= pages@.len(),
            issue_views(issues@) == base + media_issues(objs@, pages@.take(k as int)),
        decreases pages.len() - k,
    {
        assert(pages@.take(k + 1).drop_last() =~= pages@.take(k as int));
        assert(pages@.take(k + 1).last() == pages@[k as int]);
        let p = pages[k];
        if !has_media_box(objs, p) {
            let mut m = String::new();
            push_str(&mut m, "Page ");
            push_dec(&mut m, (k + 1) as u64);
            push_str(&mut m, " (object ");
            push_dec(&mut m, p.num as u64);
            push_str(&mut m, "): missing /MediaBox (not found in page or parent chain)");
            push_issue(issues, ValidationLevel::Error, m);
            assert(issue_views(issues@) =~= base + media_issues(objs@, pages@.take(k + 1)));
        }
        k = k + 1;
    }
    assert(pages@.take(pages@.len() as int) =~= pages@);
}

// ── Page count ───────────────────────────────────────────────────────

/// The integer `/Count` of the page tree root, when the catalog refers to a
/// dictionary that has one.
pub open spec fn declared_count(d: PdfDoc) -> Option<i64> {
    match root_ref(d) {
        Some(r) => match plain_dict_at(d.objects@, r) {
            Some(cat) => match as_ref(entry_get(cat, key("Pages"@))) {
                Some(pr) => match plain_dict_at(d.objects@, pr) {
                    Some(pd) => match entry_get(pd, key("Count"@)) {
                        Some(PdfValue::Integer(c)) => Some(c),
                        _ => None,
                    },
                    None => None,
                },
                None => None,
            },
            None => None,
        },
        None => None,
    }
}

pub open spec fn count_issues(d: PdfDoc, page_count: nat) -> Seq<IssueSpec> {
    match declared_count(d) {
        Some(c) => if c != page_count {
            seq![
                (
                    ValidationLevel::Error,
                    "/Pages /Count is "@ + dec_int(c as int) + " but document has "@ + dec(page_count)
                        + " pages"@,
                ),
            ]
        } else {
            Seq::empty()
        },
        None => Seq::empty(),
    }
}

pub(crate) fn plain_dict(objs: &Vec<(ObjRef, PdfValue)>, r: ObjRef) -> (res: Option<&Vec<(Vec<u8>, PdfValue)>>)
    requires
        objects_sorted(objs@),
    ensures
        match res {
            Some(es) => plain_dict_at(objs@, r) == Some(es@),
            None => plain_dict_at(objs@, r) is None,
        },
{
    match resolve_object(objs, r) {
        Some(i) => match &objs[i].1 {
            PdfValue::Dictionary(es) => Some(es),
            _ => None,
        },
        None => None,
    }
}

fn declared_page_count(doc: &PdfDoc) -> (r: Option<i64>)
    requires
        objects_sorted(doc.objects@),
    ensures
        r == declared_count(*doc),
{
    let root = ref_value(&doc.trailer, "Root")?;
    let cat = plain_dict(&doc.objects, root)?;
    let pr = ref_value(cat, "Pages")?;
    let pd = plain_dict(&doc.objects, pr)?;
    let j = find_entry(pd, "Count".as_bytes())?;
    match &pd[j].1 {
        PdfValue::Integer(c) => Some(*c),
        _ => None,
    }
}

/// An error when the page tree's `/Count` differs from the number of pages.
pub fn check_page_tree(doc: &PdfDoc, page_count: usize, issues: &mut Vec<ValidationIssue>)
    requires
        objects_sorted(doc.objects@),
    ensures
        issue_views(final(issues)@) == issue_views(old(issues)@) + count_issues(*doc, page_count as nat),
{
    match declared_page_count(doc) {
        Some(c) => {
            if (c as i128) != (page_count as i128) {
                let mut m = String::new();
                push_str(&mut m, "/Pages /Count is ");
                push_dec_i64(&mut m, c);
                push_str(&mut m, " but document has ");
                push_dec(&mut m, page_count as u64);
                push_str(&mut m, " pages");
                push_issue(issues, ValidationLevel::Error, m);
            } else {
                assert(issue_views(issues@) =~= issue_views(old(issues)@) + count_issues(*doc, page_count as nat));
            }
        },
        None => {
            assert(issue_views(issues@) =~= issue_views(old(issues)@) + count_issues(*doc, page_count as nat));
        },
    }
}

// ── Duplicate objects ────────────────────────────────────────────────

/// The generations `[a, b, ...]` as Rust's debug format writes a list.
pub open spec fn gens_text(gs: Seq<u16>) -> Seq<char>
    decreases gs.len(),
{
    if gs.len() == 0 {
        Seq::empty()
    } else if gs.len() == 1 {
        dec(gs[0] as nat)
    } else {
        gens_text(gs.drop_last()) + ", "@ + dec(gs.last() as nat)
    }
}

/// The generations of the run of objects with the same number that ends at
/// position `i` (in a sorted document, all the generations of that number).
pub open spec fn run_gens(objs: Seq<(ObjRef, PdfValue)>, i: int) -> Seq<u16>
    decreases i,
{
    if i <= 0 || objs[i - 1].0.num != objs[i].0.num {
        seq![objs[i].0.gen]
    } else {
        run_gens(objs, i - 1).push(objs[i].0.gen)
    }
}

/// A warning for each object number present with more than one generation,
/// in ascending number, listing its generations.
pub open spec fn duplicate_issues(objs: Seq<(ObjRef, PdfValue)>, n: int) -> Seq<IssueSpec>
    decreases n,
{
    if n <= 0 {
        Seq::empty()
    } else {
        let prev = duplicate_issues(objs, n - 1);
        let i = n - 1;
        let num = objs[i].0.num;
        let run_end = i + 1 == objs.len() || objs[i + 1].0.num != num;
        let gs = run_gens(objs, i);
        if run_end && gs.len() > 1 {
            prev.push(
                (
                    ValidationLevel::Warn,
                    "Object "@ + dec(num as nat) + ": multiple generations present (["@ + gens_text(gs)
                        + "])"@,
                ),
            )
        } else {
            prev
        }
    }
}

fn push_gens(m: &mut String, gs: &Vec<u16>)
    ensures
        final(m)@ == old(m)@ + gens_text(gs@),
{
    let mut i: usize = 0;
    assert(gs@.take(0) =~= Seq::<u16>::empty());
    while i < gs.len()
        invariant
            i <= gs@.len(),
            m@ == old(m)@ + gens_text(gs@.take(i as int)),
        decreases gs.len() - i,
    {
        assert(gs@.take(i + 1).drop_last() =~= gs@.take(i as int));
        if i > 0 {
            push_str(m, ", ");
        }
        push_dec(m, gs[i] as u64);
        assert(m@ =~= old(m)@ + gens_text(gs@.take(i + 1)));
        i = i + 1;
    }
    assert(gs@.take(gs@.len() as int) =~= gs@);
}

/// Warnings for object numbers present with several generations.
pub fn check_duplicate_objects(doc: &PdfDoc, issues: &mut Vec<ValidationIssue>)
    ensures
        issue_views(final(issues)@) == issue_views(old(issues)@) + duplicate_issues(
            doc.objects@,
            doc.objects@.len() as int,
        ),
{
    let objs = &doc.objects;
    let n = objs.len();
    let mut run: Vec<u16> = Vec::new();
    let mut k: usize = 0;
    assert(issue_views(issues@) =~= issue_views(old(issues)@) + duplicate_issues(objs@, 0));
    while k < n
        invariant
            n == objs@.len(),
            k <= n,
            k > 0 ==> run@ == run_gens(objs@, k - 1),
            issue_views(issues@) == issue_views(old(issues)@) + duplicate_issues(objs@, k as int),
        decreases n - k,
    {
        let id = objs[k].0;
        if k == 0 || objs[k - 1].0.num != id.num {
            run = Vec::new();
            run.push(id.gen);
            assert(run@ =~= run_gens(objs@, k as int));
        } else {
            run.push(id.gen);
        }
        let run_end = k + 1 == n || objs[k + 1].0.num != id.num;
        if run_end && run.len() > 1 {
            let mut m = String::new();
            push_str(&mut m, "Object ");
            push_dec(&mut m, id.num as u64);
            push_str(&mut m, ": multiple generations present ([");
            push_gens(&mut m, &run);
            push_str(&mut m, "])");
            push_issue(issues, ValidationLevel::Warn, m);
        }
        k = k + 1;
    }
}

// ── Content syntax ───────────────────────────────────────────────────

/// Whether lopdf's content parser (`Content::decode`) accepts the bytes. It
/// depends on the bytes alone.
pub uninterp spec fn content_decodes(bytes: Seq<u8>) -> bool;

/// `lopdf::content::Content::decode`: whether decoded stream bytes parse as
/// content operators; its answer is named `content_decodes`.
#[verifier::external_body]
fn content_parses(bytes: &[u8]) -> (r: bool)
    ensures
        r == content_decodes(bytes@),
{
    lopdf::content::Content::decode(bytes).is_ok()
}

/// The direct references among array items, in order.
pub open spec fn ref_items(items: Seq<PdfValue>) -> Seq<ObjRef>
    decreases items.len(),
{
    if items.len() == 0 {
        Seq::empty()
    } else {
        match items.last() {
            PdfValue::Reference(r) => ref_items(items.drop_last()).push(r),
            _ => ref_items(items.drop_last()),
        }
    }
}

/// A page's content streams: its `/Contents` reference, or the references
/// in its `/Contents` array; `None` when the page is not a dictionary or has
/// neither.
pub open spec fn page_contents(objs: Seq<(ObjRef, PdfValue)>, page: ObjRef) -> Option<Seq<ObjRef>> {
    match plain_dict_at(objs, page) {
        Some(d) => match entry_get(d, key("Contents"@)) {
            Some(PdfValue::Reference(r)) => Some(seq![r]),
            Some(PdfValue::Array(items)) => Some(ref_items(items@)),
            _ => None,
        },
        None => None,
    }
}

/// A content stream that does not parse once decoded.
pub open spec fn syntax_issue(objs: Seq<(ObjRef, PdfValue)>, page_num: nat, c: ObjRef) -> Seq<IssueSpec> {
    match get_object(objs, c) {
        Some(i) => match objs[i].1 {
            PdfValue::Stream { dict, content } => if !content_decodes(
                run_filters(content@, dict_filter_names(dict@)).0,
            ) {
                seq![
                    (
                        ValidationLevel::Warn,
                        "Page "@ + dec(page_num) + ": content stream "@ + dec(c.num as nat) + " "@ + dec(
                            c.gen as nat,
                        ) + " has invalid syntax"@,
                    ),
                ]
            } else {
                Seq::empty()
            },
            _ => Seq::empty(),
        },
        None => Seq::empty(),
    }
}

pub open spec fn stream_syntax_issues(objs: Seq<(ObjRef, PdfValue)>, page_num: nat, cs: Seq<ObjRef>) -> Seq<IssueSpec>
    decreases cs.len(),
{
    if cs.len() == 0 {
        Seq::empty()
    } else {
        stream_syntax_issues(objs, page_num, cs.drop_last()) + syntax_issue(objs, page_num, cs.last())
    }
}

pub open spec fn syntax_issues(objs: Seq<(ObjRef, PdfValue)>, pages: Seq<ObjRef>) -> Seq<IssueSpec>
    decreases pages.len(),
{
    if pages.len() == 0 {
        Seq::empty()
    } else {
        syntax_issues(objs, pages.drop_last()) + match page_contents(objs, pages.last()) {
            Some(cs) => stream_syntax_issues(objs, pages.len(), cs),
            None => Seq::empty(),
        }
    }
}

fn page_content_ids(objs: &Vec<(ObjRef, PdfValue)>, page: ObjRef) -> (r: Option<Vec<ObjRef>>)
    requires
        objects_sorted(objs@),
    ensures
        match r {
            Some(v) => page_contents(objs@, page) == Some(v@),
            None => page_contents(objs@, page) is None,
        },
{
    let d = plain_dict(objs, page)?;
    let j = find_entry(d, "Contents".as_bytes())?;
    match &d[j].1 {
        PdfValue::Reference(r) => {
            let mut v: Vec<ObjRef> = Vec::new();
            v.push(*r);
            assert(v@ =~= seq![*r]);
            Some(v)
        },
        PdfValue::Array(items) => {
            let mut v: Vec<ObjRef> = Vec::new();
            let mut i: usize = 0;
            assert(items@.take(0) =~= Seq::<PdfValue>::empty());
            while i < items.len()
                invariant
                    i <= items@.len(),
                    v@ == ref_items(items@.take(i as int)),
                decreases items.len() - i,
            {
                assert(items@.take(i + 1).drop_last() =~= items@.take(i as int));
                assert(items@.take(i + 1).last() == items@[i as int]);
                if let PdfValue::Reference(r) = &items[i] {
                    v.push(*r);
                }
                i = i + 1;
            }
            assert(items@.take(items@.len() as int) =~= items@);
            Some(v)
        },
        _ => None,
    }
}


/// Warnings for page content streams that do not parse once decoded.
pub fn check_content_stream_syntax(doc: &PdfDoc, pages: &Vec<ObjRef>, issues: &mut Vec<ValidationIssue>)
    requires
        objects_sorted(doc.objects@),
    ensures
        issue_views(final(issues)@) == issue_views(old(issues)@) + syntax_issues(doc.objects@, pages@),
{
    let objs = &doc.objects;
    let mut k: usize = 0;
    assert(pages@.take(0) =~= Seq::<ObjRef>::empty());
    assert(issue_views(issues@) =~= issue_views(old(issues)@) + syntax_issues(objs@, pages@.take(0)));
    while k < pages.len()
        invariant
            objects_sorted(objs@),
            k <= pages@.len(),
            issue_views(issues@) == issue_views(old(issues)@) + syntax_issues(objs@, pages@.take(k as int)),
        decreases pages.len() - k,
    {
        assert(pages@.take(k + 1).drop_last() =~= pages@.take(k as int));
        assert(pages@.take(k + 1).last() == pages@[k as int]);
        let ghost base = issue_views(issues@);
        match page_content_ids(objs, pages[k]) {
            None => {
                assert(issue_views(issues@) =~= base + Seq::<IssueSpec>::empty());
            },
            Some(cs) => {
                let mut j: usize = 0;
                assert(cs@.take(0) =~= Seq::<ObjRef>::empty());
                assert(issue_views(issues@) =~= base + stream_syntax_issues(objs@, (k + 1) as nat, cs@.take(0)));
                while j < cs.len()
                    invariant
                        objects_sorted(objs@),
                        j <= cs@.len(),
                        k < pages.len(),
                        issue_views(issues@) == base + stream_syntax_issues(objs@, (k + 1) as nat, cs@.take(j as int)),
                    decreases cs.len() - j,
                {
                    assert(cs@.take(j + 1).drop_last() =~= cs@.take(j as int));
                    assert(cs@.take(j + 1).last() == cs@[j as int]);
                    let c = cs[j];
                    let ghost before = issue_views(issues@);
                    if let Some(i) = resolve_object(objs, c) {
                        if let PdfValue::Stream { dict, content } = &objs[i].1 {
                            let st = pdf_stream_of(dict, content);
                            let (decoded, _) = decode_stream(&st);
                            if !content_parses(cow_bytes(&decoded)) {
                                let mut m = String::new();
                                push_str(&mut m, "Page ");
                                push_dec(&mut m, (k + 1) as u64);
                                push_str(&mut m, ": content stream ");
                                push_dec(&mut m, c.num as u64);
                                push_str(&mut m, " ");
                                push_dec(&mut m, c.gen as u64);
                                push_str(&mut m, " has invalid syntax");
                                push_issue(issues, ValidationLevel::Warn, m);
                            }
                        }
                    }
                    assert(issue_views(issues@) =~= before + syntax_issue(objs@, (k + 1) as nat, c));
                    j = j + 1;
                }
                assert(cs@.take(cs@.len() as int) =~= cs@);
            },
        }
        k = k + 1;
    }
    assert(pages@.take(pages@.len() as int) =~= pages@);
}

// ── Font dictionaries ────────────────────────────────────────────────

/// A name value's bytes.
pub open spec fn name_of(v: Option<PdfValue>) -> Option<Seq<u8>> {
    match v {
        Some(PdfValue::Name(n)) => Some(n@),
        _ => None,
    }
}

/// The subtypes that require `/BaseFont`.
pub open spec fn needs_base_font(sub: Option<Seq<u8>>) -> bool {
    match sub {
        Some(s) => s == key("Type1"@) || s == key("TrueType"@) || s == key("Type0"@) || s == key(
            "CIDFontType0"@,
        ) || s == key("CIDFontType2"@),
        None => false,
    }
}

pub open spec fn font_prefix(id: ObjRef) -> Seq<char> {
    "Font object "@ + dec(id.num as nat) + " "@ + dec(id.gen as nat)
}

/// The font checks of one object: a font dictionary needs `/BaseFont` for
/// the subtypes that have one, `/FirstChar` and `/LastChar` together, and as
/// many `/Widths` as they span.
pub open spec fn font_issues_of(id: ObjRef, v: PdfValue) -> Seq<IssueSpec> {
    match dict_of(v) {
        None => Seq::empty(),
        Some(d) => if name_of(entry_get(d, key("Type"@))) != Some(key("Font"@)) {
            Seq::empty()
        } else {
            let sub = name_of(entry_get(d, key("Subtype"@)));
            let base = if needs_base_font(sub) && entry_get(d, key("BaseFont"@)) is None {
                seq![(ValidationLevel::Warn, font_prefix(id) + ": missing /BaseFont"@)]
            } else {
                Seq::empty()
            };
            let hf = entry_get(d, key("FirstChar"@)) is Some;
            let hl = entry_get(d, key("LastChar"@)) is Some;
            let pair = if hf != hl {
                seq![
                    (
                        ValidationLevel::Warn,
                        font_prefix(id) + ": has "@ + (if hf { "/FirstChar"@ } else { "/LastChar"@ })
                            + " but not "@ + (if hf { "/LastChar"@ } else { "/FirstChar"@ }),
                    ),
                ]
            } else {
                Seq::empty()
            };
            let widths = match (entry_get(d, key("FirstChar"@)), entry_get(d, key("LastChar"@))) {
                (Some(PdfValue::Integer(f)), Some(PdfValue::Integer(l))) => {
                    let span = l - f + 1;
                    let expected: nat = if span > 0 { span as nat } else { 0 };
                    match entry_get(d, key("Widths"@)) {
                        Some(PdfValue::Array(w)) => if w@.len() != expected {
                            seq![
                                (
                                    ValidationLevel::Warn,
                                    font_prefix(id) + ": /Widths has "@ + dec(w@.len()) + " entries but /FirstChar..=/LastChar expects "@
                                        + dec(expected),
                                ),
                            ]
                        } else {
                            Seq::empty()
                        },
                        _ => Seq::empty(),
                    }
                },
                _ => Seq::empty(),
            };
            base + pair + widths
        },
    }
}

/// The start of every warning about how many entries `/Widths` has.
pub open spec fn widths_warning_prefix(id: ObjRef) -> Seq<char> {
    font_prefix(id) + ": /Widths"@
}

proof fn lemma_not_widths_warning(id: ObjRef, rest: Seq<char>)
    requires
        rest.len() >= 3,
        rest[0] == ':',
        rest[1] == ' ',
        rest[2] != '/',
    ensures
        !widths_warning_prefix(id).is_prefix_of(font_prefix(id) + rest),
{
    reveal_strlit(": /Widths");
    let p = widths_warning_prefix(id);
    let m = font_prefix(id) + rest;
    let at = font_prefix(id).len() as int + 2;
    if p.is_prefix_of(m) {
        assert(p[at] == m.subrange(0, p.len() as int)[at]);
        assert(p[at] == '/');
        assert(m[at] == rest[2]);
    }
}

/// The expected number of `/Widths` entries is the size of the inclusive
/// range `/FirstChar..=/LastChar`: a font whose `/Widths` array has exactly
/// `/LastChar - /FirstChar + 1` entries draws no warning about them, and a
/// font dictionary whose array has any other number of entries (or any at
/// all where the range is empty) draws one.
pub proof fn law_widths_cover_inclusive_range(id: ObjRef, v: PdfValue, f: i64, l: i64, w: Vec<PdfValue>)
    requires
        dict_of(v) is Some,
        entry_get(dict_of(v).unwrap(), key("FirstChar"@)) == Some(PdfValue::Integer(f)),
        entry_get(dict_of(v).unwrap(), key("LastChar"@)) == Some(PdfValue::Integer(l)),
        entry_get(dict_of(v).unwrap(), key("Widths"@)) == Some(PdfValue::Array(w)),
    ensures
        w@.len() == l - f + 1 ==> forall|i: int|
            0 <= i < font_issues_of(id, v).len() ==> !widths_warning_prefix(id).is_prefix_of(
                #[trigger] font_issues_of(id, v)[i].1,
            ),
        name_of(entry_get(dict_of(v).unwrap(), key("Type"@))) == Some(key("Font"@)) && w@.len() != (
        if l >= f {
            l - f + 1
        } else {
            0
        }) ==> exists|i: int|
            0 <= i < font_issues_of(id, v).len() && widths_warning_prefix(id).is_prefix_of(
                #[trigger] font_issues_of(id, v)[i].1,
            ),
{
    reveal_strlit(": missing /BaseFont");
    reveal_strlit(": has ");
    reveal_strlit(": /Widths");
    reveal_strlit(": /Widths has ");
    let d = dict_of(v).unwrap();
    let issues = font_issues_of(id, v);
    if name_of(entry_get(d, key("Type"@))) == Some(key("Font"@)) {
        let sub = name_of(entry_get(d, key("Subtype"@)));
        let base = if needs_base_font(sub) && entry_get(d, key("BaseFont"@)) is None {
            seq![(ValidationLevel::Warn, font_prefix(id) + ": missing /BaseFont"@)]
        } else {
            Seq::empty()
        };
        let hf = entry_get(d, key("FirstChar"@)) is Some;
        let hl = entry_get(d, key("LastChar"@)) is Some;
        assert(hf && hl);
        let expected: nat = if l - f + 1 > 0 { (l - f + 1) as nat } else { 0 };
        let wmsg = font_prefix(id) + ": /Widths has "@ + dec(w@.len())
            + " entries but /FirstChar..=/LastChar expects "@ + dec(expected);
        let widths: Seq<IssueSpec> = if w@.len() != expected {
            seq![(ValidationLevel::Warn, wmsg)]
        } else {
            Seq::empty()
        };
        assert(issues == base + widths);
        if w@.len() == l - f + 1 {
            assert(widths.len() == 0);
            assert forall|i: int| 0 <= i < issues.len() implies !widths_warning_prefix(id).is_prefix_of(
                #[trigger] issues[i].1,
            ) by {
                assert(i < base.len());
                let rest = ": missing /BaseFont"@;
                lemma_not_widths_warning(id, rest);
            }
        }
        if w@.len() != (if l >= f { l - f + 1 } else { 0 }) {
            let at = base.len() as int;
            assert(issues[at] == widths[0]);
            let p = widths_warning_prefix(id);
            assert(wmsg.subrange(0, p.len() as int) =~= p);
            assert(p.is_prefix_of(issues[at].1));
        }
    }
}

pub open spec fn font_issues(objs: Seq<(ObjRef, PdfValue)>, n: int) -> Seq<IssueSpec>
    decreases n,
{
    if n <= 0 {
        Seq::empty()
    } else {
        font_issues(objs, n - 1) + font_issues_of(objs[n - 1].0, objs[n - 1].1)
    }
}

fn entry_name<'a>(d: &'a Vec<(Vec<u8>, PdfValue)>, k: &str) -> (r: Option<&'a Vec<u8>>)
    ensures
        match r {
            Some(n) => name_of(entry_get(d@, key(k@))) == Some(n@),
            None => name_of(entry_get(d@, key(k@))) is None,
        },
{
    match find_entry(d, k.as_bytes()) {
        Some(j) => match &d[j].1 {
            PdfValue::Name(n) => Some(n),
            _ => None,
        },
        None => None,
    }
}

fn entry_int(d: &Vec<(Vec<u8>, PdfValue)>, k: &str) -> (r: Option<i64>)
    ensures
        match entry_get(d@, key(k@)) {
            Some(PdfValue::Integer(x)) => r == Some(x),
            _ => r is None,
        },
{
    match find_entry(d, k.as_bytes()) {
        Some(j) => match &d[j].1 {
            PdfValue::Integer(x) => Some(*x),
            _ => None,
        },
        None => None,
    }
}

fn font_check(id: ObjRef, v: &PdfValue, issues: &mut Vec<ValidationIssue>)
    ensures
        issue_views(final(issues)@) == issue_views(old(issues)@) + font_issues_of(id, *v),
{
    let d = match v {
        PdfValue::Dictionary(es) => es,
        PdfValue::Stream { dict, content } => dict,
        _ => {
            assert(issue_views(issues@) =~= issue_views(old(issues)@) + font_issues_of(id, *v));
            return;
        },
    };
    let is_font = match entry_name(d, "Type") {
        Some(n) => bytes_eq(n.as_slice(), "Font".as_bytes()),
        None => false,
    };
    if !is_font {
        assert(issue_views(issues@) =~= issue_views(old(issues)@) + font_issues_of(id, *v));
        return;
    }
    let needs = match entry_name(d, "Subtype") {
        Some(s) => bytes_eq(s.as_slice(), "Type1".as_bytes()) || bytes_eq(s.as_slice(), "TrueType".as_bytes())
            || bytes_eq(s.as_slice(), "Type0".as_bytes()) || bytes_eq(s.as_slice(), "CIDFontType0".as_bytes())
            || bytes_eq(s.as_slice(), "CIDFontType2".as_bytes()),
        None => false,
    };
    let mut prefix = String::new();
    push_str(&mut prefix, "Font object ");
    push_dec(&mut prefix, id.num as u64);
    push_str(&mut prefix, " ");
    push_dec(&mut prefix, id.gen as u64);
    let ghost start = issue_views(issues@);
    if needs && find_entry(d, "BaseFont".as_bytes()).is_none() {
        let mut m = String::new();
        push_str(&mut m, prefix.as_str());
        push_str(&mut m, ": missing /BaseFont");
        push_issue(issues, ValidationLevel::Warn, m);
    }
    let hf = find_entry(d, "FirstChar".as_bytes()).is_some();
    let hl = find_entry(d, "LastChar".as_bytes()).is_some();
    if hf != hl {
        let mut m = String::new();
        push_str(&mut m, prefix.as_str());
        push_str(&mut m, ": has ");
        push_str(&mut m, if hf { "/FirstChar" } else { "/LastChar" });
        push_str(&mut m, " but not ");
        push_str(&mut m, if hf { "/LastChar" } else { "/FirstChar" });
        push_issue(issues, ValidationLevel::Warn, m);
    }
    if let (Some(f), Some(l)) = (entry_int(d, "FirstChar"), entry_int(d, "LastChar")) {
        let span: i128 = (l as i128) - (f as i128) + 1;
        let expected: u128 = if span > 0 { span as u128 } else { 0 };
        if let Some(j) = find_entry(d, "Widths".as_bytes()) {
            if let PdfValue::Array(w) = &d[j].1 {
                if (w.len() as u128) != expected {
                    let mut m = String::new();
                    push_str(&mut m, prefix.as_str());
                    push_str(&mut m, ": /Widths has ");
                    push_dec(&mut m, w.len() as u64);
                    push_str(&mut m, " entries but /FirstChar..=/LastChar expects ");
                    push_dec_u128(&mut m, expected);
                    push_issue(issues, ValidationLevel::Warn, m);
                }
            }
        }
    }
    assert(issue_views(issues@) =~= issue_views(old(issues)@) + font_issues_of(id, *v));
}

/// Warnings for font dictionaries that lack `/BaseFont`, pair `/FirstChar`
/// and `/LastChar` wrongly, or have the wrong number of `/Widths`.
pub fn check_font_requirements(doc: &PdfDoc, issues: &mut Vec<ValidationIssue>)
    ensures
        issue_views(final(issues)@) == issue_views(old(issues)@) + font_issues(
            doc.objects@,
            doc.objects@.len() as int,
        ),
{
    let objs = &doc.objects;
    let mut k: usize = 0;
    assert(issue_views(issues@) =~= issue_views(old(issues)@) + font_issues(objs@, 0));
    while k < objs.len()
        invariant
            k <= objs@.len(),
            issue_views(issues@) == issue_views(old(issues)@) + font_issues(objs@, k as int),
        decreases objs.len() - k,
    {
        font_check(objs[k].0, &objs[k].1, issues);
        assert(issue_views(issues@) =~= issue_views(old(issues)@) + font_issues(objs@, k + 1));
        k = k + 1;
    }
}

// ── Reachability ─────────────────────────────────────────────────────

/// The references in the object that `r` names (references followed).
pub open spec fn succ(objs: Seq<(ObjRef, PdfValue)>, r: ObjRef) -> Seq<ObjRef> {
    match get_object(objs, r) {
        Some(i) => refs_of(objs[i].1),
        None => Seq::empty(),
    }
}

/// The references in the trailer.
pub open spec fn roots(d: PdfDoc) -> Seq<ObjRef> {
    refs_of_entries(d.trailer@)
}

/// `r` is reached from the trailer in at most `k` steps.
pub open spec fn reach_within(d: PdfDoc, k: nat, r: ObjRef) -> bool
    decreases k,
{
    if k == 0 {
        roots(d).contains(r)
    } else {
        reach_within(d, (k - 1) as nat, r) || exists|q: ObjRef|
            reach_within(d, (k - 1) as nat, q) && #[trigger] succ(d.objects@, q).contains(r)
    }
}

/// `r` is reached from the trailer through references.
pub open spec fn reachable(d: PdfDoc, r: ObjRef) -> bool {
    exists|k: nat| #[trigger] reach_within(d, k, r)
}

/// The warning for one object, if nothing reaches it.
pub open spec fn unreachable_issue(d: PdfDoc, id: ObjRef) -> Seq<IssueSpec> {
    if reachable(d, id) {
        Seq::empty()
    } else {
        seq![
            (
                ValidationLevel::Warn,
                "Object "@ + dec(id.num as nat) + " "@ + dec(id.gen as nat) + " is unreachable from trailer"@,
            ),
        ]
    }
}

pub open spec fn unreachable_issues(d: PdfDoc, n: int) -> Seq<IssueSpec>
    decreases n,
{
    if n <= 0 {
        Seq::empty()
    } else {
        unreachable_issues(d, n - 1) + unreachable_issue(d, d.objects@[n - 1].0)
    }
}

/// The search state: `order` lists the marked positions in the order they
/// were found.
pub open spec fn search_inv(d: PdfDoc, marked: Seq<bool>, order: Seq<usize>) -> bool {
    let objs = d.objects@;
    &&& marked.len() == objs.len()
    &&& order.no_duplicates()
    &&& forall|p: int| 0 <= p < order.len() ==> (#[trigger] order[p]) < objs.len() && marked[order[p] as int]
    &&& forall|i: int| 0 <= i < marked.len() && #[trigger] marked[i] ==> order.contains(i as usize)
    &&& forall|p: int| 0 <= p < order.len() ==> reachable(d, objs[#[trigger] order[p] as int].0)
}

/// Every existing object that `rs` refers to is marked.
pub open spec fn all_marked(objs: Seq<(ObjRef, PdfValue)>, marked: Seq<bool>, rs: Seq<ObjRef>) -> bool {
    forall|q: int| 0 <= q < rs.len() ==> match lookup(objs, #[trigger] rs[q]) {
        Some(j) => marked[j],
        None => true,
    }
}

fn mark(
    d: &PdfDoc,
    r: ObjRef,
    marked: &mut Vec<bool>,
    order: &mut Vec<usize>,
    Ghost(k): Ghost<nat>,
)
    requires
        objects_sorted(d.objects@),
        search_inv(*d, old(marked)@, old(order)@),
        reach_within(*d, k, r),
    ensures
        search_inv(*d, final(marked)@, final(order)@),
        match lookup(d.objects@, r) {
            Some(j) => final(marked)@[j],
            None => true,
        },
        forall|i: int| 0 <= i < old(marked)@.len() && old(marked)@[i] ==> final(marked)@[i],
        final(order)@.len() >= old(order)@.len(),
        forall|p: int| 0 <= p < old(order)@.len() ==> final(order)@[p] == old(order)@[p],
{
    proof {
        lemma_lookup_found(d.objects@, r);
    }
    if let Some(j) = find_object(&d.objects, r) {
        if !marked[j] {
            let ghost m0 = marked@;
            let ghost o0 = order@;
            marked.set(j, true);
            order.push(j);
            proof {
                assert(reachable(*d, d.objects@[j as int].0));
                assert forall|p: int| 0 <= p < order@.len() implies (#[trigger] order@[p]) < d.objects@.len() && marked@[order@[p] as int] by {
                    if p < o0.len() {
                        assert(order@[p] == o0[p]);
                    }
                }
                assert forall|i: int| 0 <= i < marked@.len() && #[trigger] marked@[i] implies order@.contains(i as usize) by {
                    if i != j {
                        assert(m0[i]);
                        let p = choose|p: int| 0 <= p < o0.len() && o0[p] == i as usize;
                        assert(order@[p] == i as usize);
                    } else {
                        assert(order@[o0.len() as int] == j);
                    }
                }
                assert forall|p: int| 0 <= p < order@.len() implies reachable(*d, d.objects@[#[trigger] order@[p] as int].0) by {
                    if p < o0.len() {
                        assert(order@[p] == o0[p]);
                    }
                }
                assert(order@.no_duplicates()) by {
                    assert forall|a: int, b: int| 0 <= a < order@.len() && 0 <= b < order@.len() && a != b implies order@[a] != order@[b] by {
                        if a < o0.len() && b < o0.len() {
                            assert(o0[a] != o0[b]);
                        } else if a < o0.len() {
                            assert(marked@[o0[a] as int]);
                            assert(m0[o0[a] as int]);
                        } else if b < o0.len() {
                            assert(m0[o0[b] as int]);
                        }
                    }
                }
            }
        }
    }
}

proof fn lemma_complete(d: PdfDoc, marked: Seq<bool>, order: Seq<usize>, k: nat, r: ObjRef)
    requires
        objects_sorted(d.objects@),
        search_inv(d, marked, order),
        all_marked(d.objects@, marked, roots(d)),
        forall|p: int| 0 <= p < order.len() ==> all_marked(d.objects@, marked, succ(d.objects@, d.objects@[#[trigger] order[p] as int].0)),
        reach_within(d, k, r),
        d.objects@.len() <= usize::MAX,
    ensures
        match lookup(d.objects@, r) {
            Some(j) => marked[j],
            None => true,
        },
    decreases k,
{
    let objs = d.objects@;
    if k == 0 {
        let q = choose|q: int| 0 <= q < roots(d).len() && roots(d)[q] == r;
        assert(match lookup(objs, roots(d)[q]) {
            Some(j) => marked[j],
            None => true,
        });
    } else if reach_within(d, (k - 1) as nat, r) {
        lemma_complete(d, marked, order, (k - 1) as nat, r);
    } else {
        let q = choose|q: ObjRef| reach_within(d, (k - 1) as nat, q) && #[trigger] succ(d.objects@, q).contains(r);
        lemma_complete(d, marked, order, (k - 1) as nat, q);
        lemma_lookup_found(objs, q);
        assert(get_object(objs, q) is Some);
        assert(lookup(objs, q) is Some);
        let jq = lookup(objs, q)->0;
        assert(0 <= jq < objs.len());
        assert(marked[jq]);
        assert(order.contains(jq as usize));
        let p = choose|p: int| 0 <= p < order.len() && order[p] == jq as usize;
        assert(objs[order[p] as int].0 == q);
        let t = choose|t: int| 0 <= t < succ(objs, q).len() && succ(objs, q)[t] == r;
        assert(all_marked(objs, marked, succ(objs, objs[order[p] as int].0)));
        assert(match lookup(objs, succ(objs, q)[t]) {
            Some(j) => marked[j],
            None => true,
        });
    }
}

/// Whether each object is reachable from the trailer, by position.
pub fn reachable_objects(d: &PdfDoc) -> (r: Vec<bool>)
    requires
        objects_sorted(d.objects@),
    ensures
        r@.len() == d.objects@.len(),
        forall|i: int| 0 <= i < r@.len() ==> r@[i] == reachable(*d, d.objects@[i].0),
{
    let n = d.objects.len();
    let mut marked: Vec<bool> = Vec::new();
    let mut b: usize = 0;
    while b < n
        invariant
            b <= n,
            marked@.len() == b,
            forall|i: int| 0 <= i < b ==> !(#[trigger] marked@[i]),
        decreases n - b,
    {
        marked.push(false);
        b = b + 1;
    }
    let mut order: Vec<usize> = Vec::new();
    assert(order@.no_duplicates());
    let mut rs: Vec<ObjRef> = Vec::new();
    collect_entry_refs(&d.trailer, &mut rs);
    assert(rs@ =~= roots(*d));
    let mut t: usize = 0;
    while t < rs.len()
        invariant
            objects_sorted(d.objects@),
            rs@ == roots(*d),
            t <= rs@.len(),
            search_inv(*d, marked@, order@),
            all_marked(d.objects@, marked@, rs@.take(t as int)),
        decreases rs.len() - t,
    {
        assert(reach_within(*d, 0, rs@[t as int]));
        let ghost m0 = marked@;
        mark(d, rs[t], &mut marked, &mut order, Ghost(0));
        proof {
            assert forall|q: int| 0 <= q < rs@.take(t + 1).len() implies match lookup(d.objects@, #[trigger] rs@.take(t + 1)[q]) {
                Some(j) => marked@[j],
                None => true,
            } by {
                if q < t {
                    assert(rs@.take(t + 1)[q] == rs@.take(t as int)[q]);
                    lemma_lookup_found(d.objects@, rs@[q]);
                }
            }
        }
        t = t + 1;
    }
    assert(rs@.take(rs@.len() as int) =~= rs@);
    let mut head: usize = 0;
    while head < order.len()
        invariant
            objects_sorted(d.objects@),
            n == d.objects@.len(),
            head <= order@.len(),
            search_inv(*d, marked@, order@),
            all_marked(d.objects@, marked@, roots(*d)),
            forall|p: int| 0 <= p < head ==> all_marked(d.objects@, marked@, succ(d.objects@, d.objects@[#[trigger] order@[p] as int].0)),
        decreases n - head,
    {
        proof {
            lemma_distinct_below(order@, n);
        }
        let i = order[head];
        let id = d.objects[i].0;
        let ghost reach_id = reachable(*d, id);
        assert(reach_id);
        let ghost kk = choose|k: nat| #[trigger] reach_within(*d, k, id);
        let mut out: Vec<ObjRef> = Vec::new();
        match resolve_object(&d.objects, id) {
            Some(f) => {
                collect_refs(&d.objects[f].1, &mut out);
            },
            None => {},
        }
        assert(out@ =~= succ(d.objects@, id));
        let mut q: usize = 0;
        while q < out.len()
            invariant
                objects_sorted(d.objects@),
                n == d.objects@.len(),
                head < order@.len(),
                order@[head as int] == i,
                d.objects@[i as int].0 == id,
                reach_within(*d, kk, id),
                out@ == succ(d.objects@, id),
                q <= out@.len(),
                search_inv(*d, marked@, order@),
                all_marked(d.objects@, marked@, roots(*d)),
                forall|p: int| 0 <= p < head ==> all_marked(d.objects@, marked@, succ(d.objects@, d.objects@[#[trigger] order@[p] as int].0)),
                all_marked(d.objects@, marked@, out@.take(q as int)),
            decreases out.len() - q,
        {
            assert(reach_within(*d, kk + 1, out@[q as int])) by {
                assert(succ(d.objects@, id).contains(out@[q as int]));
            }
            let ghost m0 = marked@;
            let ghost o0 = order@;
            mark(d, out[q], &mut marked, &mut order, Ghost(kk + 1));
            proof {
                assert forall|p: int| 0 <= p < head implies all_marked(d.objects@, marked@, succ(d.objects@, d.objects@[#[trigger] order@[p] as int].0)) by {
                    assert(order@[p] == o0[p]);
                    let ss = succ(d.objects@, d.objects@[o0[p] as int].0);
                    assert(all_marked(d.objects@, m0, ss));
                    assert forall|x: int| 0 <= x < ss.len() implies match lookup(d.objects@, #[trigger] ss[x]) {
                        Some(j) => marked@[j],
                        None => true,
                    } by {
                        lemma_lookup_found(d.objects@, ss[x]);
                    }
                }
                assert forall|x: int| 0 <= x < roots(*d).len() implies match lookup(d.objects@, #[trigger] roots(*d)[x]) {
                    Some(j) => marked@[j],
                    None => true,
                } by {
                    lemma_lookup_found(d.objects@, roots(*d)[x]);
                }
                assert forall|x: int| 0 <= x < out@.take(q + 1).len() implies match lookup(d.objects@, #[trigger] out@.take(q + 1)[x]) {
                    Some(j) => marked@[j],
                    None => true,
                } by {
                    lemma_lookup_found(d.objects@, out@[x]);
                    if x < q {
                        assert(out@.take(q + 1)[x] == out@.take(q as int)[x]);
                    }
                }
            }
            q = q + 1;
        }
        assert(out@.take(out@.len() as int) =~= out@);
        head = head + 1;
    }
    proof {
        assert forall|i: int| 0 <= i < marked@.len() implies marked@[i] == reachable(*d, d.objects@[i].0) by {
            lemma_lookup_own(d.objects@, i);
            if marked@[i] {
                let p = choose|p: int| 0 <= p < order@.len() && order@[p] == i as usize;
                assert(reachable(*d, d.objects@[order@[p] as int].0));
            }
            if reachable(*d, d.objects@[i].0) {
                let k = choose|k: nat| #[trigger] reach_within(*d, k, d.objects@[i].0);
                lemma_complete(*d, marked@, order@, k, d.objects@[i].0);
            }
        }
    }
    marked
}

/// Warnings for objects that no chain of references from the trailer
/// reaches.
pub fn check_unreachable_objects(doc: &PdfDoc, issues: &mut Vec<ValidationIssue>)
    requires
        objects_sorted(doc.objects@),
    ensures
        issue_views(final(issues)@) == issue_views(old(issues)@) + unreachable_issues(
            *doc,
            doc.objects@.len() as int,
        ),
{
    let reach = reachable_objects(doc);
    let objs = &doc.objects;
    let mut k: usize = 0;
    assert(issue_views(issues@) =~= issue_views(old(issues)@) + unreachable_issues(*doc, 0));
    while k < objs.len()
        invariant
            objs@ == doc.objects@,
            k <= objs@.len(),
            reach@.len() == objs@.len(),
            forall|i: int| 0 <= i < reach@.len() ==> reach@[i] == reachable(*doc, objs@[i].0),
            issue_views(issues@) == issue_views(old(issues)@) + unreachable_issues(*doc, k as int),
        decreases objs.len() - k,
    {
        let id = objs[k].0;
        let ghost prev = issue_views(issues@);
        assert(reach@[k as int] == reachable(*doc, objs@[k as int].0));
        if !reach[k] {
            let mut m = String::new();
            push_str(&mut m, "Object ");
            push_dec(&mut m, id.num as u64);
            push_str(&mut m, " ");
            push_dec(&mut m, id.gen as u64);
            push_str(&mut m, " is unreachable from trailer");
            push_issue(issues, ValidationLevel::Warn, m);
        }
        assert(issue_views(issues@) =~= prev + unreachable_issue(*doc, objs@[k as int].0));
        assert(unreachable_issues(*doc, k + 1) == unreachable_issues(*doc, k as int) + unreachable_issue(
            *doc,
            doc.objects@[k as int].0,
        ));
        k = k + 1;
    }
}

// ── /Parent chains ──────────────────────────────────────────────────

/// The `/Parent` reference of the dictionary an id names.
pub open spec fn parent_of(objs: Seq<(ObjRef, PdfValue)>, r: ObjRef) -> Option<ObjRef> {
    match plain_dict_at(objs, r) {
        Some(es) => as_ref(entry_get(es, key("Parent"@))),
        None => None,
    }
}

/// Following `/Parent` from `cur`, with `seen` already visited: the first
/// id met a second time, if any within `fuel` steps.
pub open spec fn chain_cycle(
    objs: Seq<(ObjRef, PdfValue)>,
    seen: Seq<ObjRef>,
    cur: Option<ObjRef>,
    fuel: nat,
) -> Option<ObjRef>
    decreases fuel,
{
    match cur {
        None => None,
        Some(p) => if seen.contains(p) {
            Some(p)
        } else if fuel == 0 {
            None
        } else {
            chain_cycle(objs, seen.push(p), parent_of(objs, p), (fuel - 1) as nat)
        },
    }
}

/// The id repeated in the `/Parent` chain above a page, if any. One step
/// per object and one more suffice (see `law_parent_chain_fuel`).
pub open spec fn page_cycle(objs: Seq<(ObjRef, PdfValue)>, page: ObjRef) -> Option<ObjRef> {
    chain_cycle(objs, seq![page], parent_of(objs, page), objs.len() + 1)
}

pub open spec fn cycle_issues(objs: Seq<(ObjRef, PdfValue)>, pages: Seq<ObjRef>) -> Seq<IssueSpec>
    decreases pages.len(),
{
    if pages.len() == 0 {
        Seq::empty()
    } else {
        let prev = cycle_issues(objs, pages.drop_last());
        match page_cycle(objs, pages.last()) {
            None => prev,
            Some(c) => prev.push(
                (
                    ValidationLevel::Error,
                    "Page "@ + dec(pages.len()) + ": cycle detected in /Parent chain (object "@
                        + dec(c.num as nat) + " "@ + dec(c.gen as nat) + " seen twice)"@,
                ),
            ),
        }
    }
}

/// Distinct ids that all name objects number at most the objects.
pub(crate) proof fn lemma_existing_distinct(objs: Seq<(ObjRef, PdfValue)>, s: Seq<ObjRef>)
    requires
        s.no_duplicates(),
        forall|i: int| 0 <= i < s.len() ==> (#[trigger] lookup(objs, s[i])) is Some,
    ensures
        s.len() <= objs.len(),
{
    let t = s.map_values(|r: ObjRef| lookup(objs, r)->0);
    assert forall|i: int| 0 <= i < t.len() implies 0 <= #[trigger] t[i] < objs.len() && objs[t[i]].0 == s[i] by {
        lemma_lookup_found(objs, s[i]);
        assert(lookup(objs, s[i]) is Some);
    }
    assert(t.no_duplicates()) by {
        assert forall|i: int, j: int| 0 <= i < t.len() && 0 <= j < t.len() && i != j implies t[i] != t[j] by {
            assert(objs[t[i]].0 == s[i]);
            assert(objs[t[j]].0 == s[j]);
        }
    }
    t.unique_seq_to_set();
    vstd::set_lib::lemma_int_range(0, objs.len() as int);
    assert(t.to_set().subset_of(vstd::set_lib::set_int_range(0, objs.len() as int)));
    vstd::set_lib::lemma_len_subset(t.to_set(), vstd::set_lib::set_int_range(0, objs.len() as int));
}

/// Following a `/Parent` chain, more than one step per object and one
/// more never changes what is found: with `fuel` at least that bound
/// (counting the ids already seen), any larger fuel gives the same result.
pub proof fn law_parent_chain_fuel(
    objs: Seq<(ObjRef, PdfValue)>,
    seen: Seq<ObjRef>,
    cur: Option<ObjRef>,
    fuel: nat,
    more: nat,
)
    requires
        seen.no_duplicates(),
        seen.len() >= 1,
        cur is Some ==> forall|i: int| 1 <= i < seen.len() ==> (#[trigger] lookup(objs, seen[i])) is Some,
        fuel + seen.len() >= objs.len() + 2,
        fuel <= more,
    ensures
        chain_cycle(objs, seen, cur, fuel) == chain_cycle(objs, seen, cur, more),
    decreases fuel,
{
    match cur {
        None => {},
        Some(p) => {
            if seen.contains(p) {
            } else if fuel == 0 {
                let tail = seen.subrange(1, seen.len() as int);
                assert forall|i: int| 0 <= i < tail.len() implies (#[trigger] lookup(objs, tail[i])) is Some by {
                    assert(tail[i] == seen[i + 1]);
                }
                assert(tail.no_duplicates()) by {
                    assert forall|i: int, j: int| 0 <= i < tail.len() && 0 <= j < tail.len() && i != j implies tail[i] != tail[j] by {
                        assert(tail[i] == seen[i + 1]);
                        assert(tail[j] == seen[j + 1]);
                    }
                }
                lemma_existing_distinct(objs, tail);
            } else {
                let seen2 = seen.push(p);
                let next = parent_of(objs, p);
                assert(seen2.no_duplicates()) by {
                    assert forall|i: int, j: int| 0 <= i < seen2.len() && 0 <= j < seen2.len() && i != j implies seen2[i] != seen2[j] by {
                        if i < seen.len() && j < seen.len() {
                            assert(seen[i] != seen[j]);
                        } else if i < seen.len() {
                            assert(seen.contains(seen2[i]));
                        } else {
                            assert(seen.contains(seen2[j]));
                        }
                    }
                }
                if next is Some {
                    assert(plain_dict_at(objs, p) is Some);
                    assert(get_object(objs, p) is Some);
                    assert forall|i: int| 1 <= i < seen2.len() implies (#[trigger] lookup(objs, seen2[i])) is Some by {
                        if i < seen.len() {
                            assert(seen2[i] == seen[i]);
                        }
                    }
                }
                law_parent_chain_fuel(objs, seen2, next, (fuel - 1) as nat, (more - 1) as nat);
            }
        },
    }
}

fn parent_ref(objs: &Vec<(ObjRef, PdfValue)>, r: ObjRef) -> (res: Option<ObjRef>)
    requires
        objects_sorted(objs@),
    ensures
        res == parent_of(objs@, r),
{
    match plain_dict(objs, r) {
        Some(es) => ref_value(es, "Parent"),
        None => None,
    }
}

pub(crate) fn contains_ref(v: &Vec<ObjRef>, r: ObjRef) -> (b: bool)
    ensures
        b == v@.contains(r),
{
    let mut i: usize = 0;
    while i < v.len()
        invariant
            i <= v@.len(),
            forall|j: int| 0 <= j < i ==> v@[j] != r,
        decreases v.len() - i,
    {
        if v[i] == r {
            return true;
        }
        i = i + 1;
    }
    false
}

fn find_page_cycle(objs: &Vec<(ObjRef, PdfValue)>, page: ObjRef) -> (res: Option<ObjRef>)
    requires
        objects_sorted(objs@),
    ensures
        res == page_cycle(objs@, page),
{
    let n = objs.len();
    let mut seen: Vec<ObjRef> = Vec::new();
    seen.push(page);
    let mut cur = parent_ref(objs, page);
    let mut steps: u128 = 0;
    assert(seen@ =~= seq![page]);
    while steps <= n as u128
        invariant
            objects_sorted(objs@),
            n == objs@.len(),
            steps <= n + 1,
            chain_cycle(objs@, seen@, cur, (n + 1 - steps) as nat) == page_cycle(objs@, page),
        decreases n + 1 - steps,
    {
        let p = match cur {
            None => {
                return None;
            },
            Some(p) => p,
        };
        if contains_ref(&seen, p) {
            return Some(p);
        }
        seen.push(p);
        cur = parent_ref(objs, p);
        steps = steps + 1;
    }
    match cur {
        None => None,
        Some(p) => if contains_ref(&seen, p) {
            Some(p)
        } else {
            None
        },
    }
}

/// Errors for pages whose `/Parent` chain comes back to an id already on
/// it; `pages` lists the document's pages in order.
pub fn check_page_tree_cycles(doc: &PdfDoc, pages: &Vec<ObjRef>, issues: &mut Vec<ValidationIssue>)
    requires
        objects_sorted(doc.objects@),
    ensures
        issue_views(final(issues)@) == issue_views(old(issues)@) + cycle_issues(doc.objects@, pages@),
{
    let objs = &doc.objects;
    let mut k: usize = 0;
    assert(pages@.take(0) =~= Seq::<ObjRef>::empty());
    assert(issue_views(issues@) =~= issue_views(old(issues)@) + cycle_issues(objs@, pages@.take(0)));
    while k < pages.len()
        invariant
            objects_sorted(objs@),
            objs@ == doc.objects@,
            k <= pages@.len(),
            issue_views(issues@) == issue_views(old(issues)@) + cycle_issues(objs@, pages@.take(k as int)),
        decreases pages.len() - k,
    {
        assert(pages@.take(k + 1).drop_last() =~= pages@.take(k as int));
        assert(pages@.take(k + 1).last() == pages@[k as int]);
        if let Some(c) = find_page_cycle(objs, pages[k]) {
            let mut m = String::new();
            push_str(&mut m, "Page ");
            push_dec(&mut m, (k + 1) as u64);
            push_str(&mut m, ": cycle detected in /Parent chain (object ");
            push_dec(&mut m, c.num as u64);
            push_str(&mut m, " ");
            push_dec(&mut m, c.gen as u64);
            push_str(&mut m, " seen twice)");
            push_issue(issues, ValidationLevel::Error, m);
        }
        k = k + 1;
    }
    assert(pages@.take(pages@.len() as int) =~= pages@);
}

// ── Name trees ───────────────────────────────────────────────────────

/// The dictionary a value is or refers to (a stream's dictionary does not
/// count).
pub open spec fn resolved_dict(objs: Seq<(ObjRef, PdfValue)>, v: Option<PdfValue>) -> Option<
    Seq<(Vec<u8>, PdfValue)>,
> {
    match v {
        Some(PdfValue::Dictionary(es)) => Some(es@),
        Some(PdfValue::Reference(r)) => plain_dict_at(objs, r),
        _ => None,
    }
}

pub open spec fn tree_message(name: Seq<char>, rest: Seq<char>) -> Seq<char> {
    "Name tree '"@ + name + "': "@ + rest
}

/// The largest node depth a name tree walk descends to.
pub open spec fn max_tree_depth() -> nat {
    50
}

/// Checking one name tree node at `depth`, with the kid ids in `visited`
/// already met: the issues found and the ids met afterwards.
pub open spec fn node_walk(
    objs: Seq<(ObjRef, PdfValue)>,
    es: Seq<(Vec<u8>, PdfValue)>,
    name: Seq<char>,
    visited: Seq<ObjRef>,
    depth: nat,
) -> (Seq<IssueSpec>, Seq<ObjRef>)
    decreases 51 - depth, 1nat, 0nat,
{
    if depth > max_tree_depth() {
        (seq![(ValidationLevel::Warn, tree_message(name, "exceeded maximum depth (50)"@))], visited)
    } else {
        let names = entry_get(es, key("Names"@));
        let kids = entry_get(es, key("Kids"@));
        if names is None && kids is None {
            (seq![(ValidationLevel::Warn, tree_message(name, "node has neither /Names nor /Kids"@))], visited)
        } else {
            let odd = match names {
                Some(PdfValue::Array(a)) => if a@.len() % 2 != 0 {
                    seq![
                        (
                            ValidationLevel::Warn,
                            tree_message(name, "/Names array has odd length ("@ + dec(a@.len()) + ")"@),
                        ),
                    ]
                } else {
                    Seq::empty()
                },
                _ => Seq::empty(),
            };
            match kids {
                Some(PdfValue::Array(ks)) => {
                    let r = kids_walk(objs, ks@, name, visited, depth, ks@.len());
                    (odd + r.0, r.1)
                },
                _ => (odd, visited),
            }
        }
    }
}

/// Checking the first `n` kids of a node at `depth`.
pub open spec fn kids_walk(
    objs: Seq<(ObjRef, PdfValue)>,
    ks: Seq<PdfValue>,
    name: Seq<char>,
    visited: Seq<ObjRef>,
    depth: nat,
    n: nat,
) -> (Seq<IssueSpec>, Seq<ObjRef>)
    decreases 51 - depth, 0nat, n,
{
    if n == 0 {
        (Seq::empty(), visited)
    } else {
        let prev = kids_walk(objs, ks, name, visited, depth, (n - 1) as nat);
        match ks[n - 1] {
            PdfValue::Reference(id) => if prev.1.contains(id) {
                (
                    prev.0.push(
                        (
                            ValidationLevel::Error,
                            tree_message(
                                name,
                                "cycle detected at object "@ + dec(id.num as nat) + " "@ + dec(id.gen as nat),
                            ),
                        ),
                    ),
                    prev.1,
                )
            } else {
                let vis = prev.1.push(id);
                match plain_dict_at(objs, id) {
                    Some(kd) => if depth < 51 {
                        let r = node_walk(objs, kd, name, vis, depth + 1);
                        (prev.0 + r.0, r.1)
                    } else {
                        (prev.0, vis)
                    },
                    None => (prev.0, vis),
                }
            },
            _ => prev,
        }
    }
}

/// The issues of the name tree under one key of the `/Names` dictionary.
pub open spec fn subtree_issues(
    objs: Seq<(ObjRef, PdfValue)>,
    names: Seq<(Vec<u8>, PdfValue)>,
    name: Seq<char>,
) -> Seq<IssueSpec> {
    match resolved_dict(objs, entry_get(names, key(name))) {
        Some(sd) => node_walk(objs, sd, name, Seq::empty(), 0).0,
        None => Seq::empty(),
    }
}

pub open spec fn names_tree_issues(d: PdfDoc) -> Seq<IssueSpec> {
    let objs = d.objects@;
    match root_ref(d) {
        None => Seq::empty(),
        Some(r) => match plain_dict_at(objs, r) {
            None => Seq::empty(),
            Some(cat) => match resolved_dict(objs, entry_get(cat, key("Names"@))) {
                None => Seq::empty(),
                Some(nd) => subtree_issues(objs, nd, "EmbeddedFiles"@) + subtree_issues(objs, nd, "Dests"@)
                    + subtree_issues(objs, nd, "JavaScript"@) + subtree_issues(objs, nd, "AP"@),
            },
        },
    }
}

pub(crate) fn resolve_dict_value<'a>(objs: &'a Vec<(ObjRef, PdfValue)>, v: Option<&'a PdfValue>) -> (r: Option<
    &'a Vec<(Vec<u8>, PdfValue)>,
>)
    requires
        objects_sorted(objs@),
    ensures
        match r {
            Some(es) => resolved_dict(objs@, match v {
                Some(x) => Some(*x),
                None => None,
            }) == Some(es@),
            None => resolved_dict(objs@, match v {
                Some(x) => Some(*x),
                None => None,
            }) is None,
        },
{
    match v {
        Some(PdfValue::Dictionary(es)) => Some(es),
        Some(PdfValue::Reference(r)) => plain_dict(objs, *r),
        _ => None,
    }
}

fn entry_ref<'a>(es: &'a Vec<(Vec<u8>, PdfValue)>, k: &str) -> (r: Option<&'a PdfValue>)
    ensures
        match r {
            Some(x) => entry_get(es@, key(k@)) == Some(*x),
            None => entry_get(es@, key(k@)) is None,
        },
{
    match find_entry(es, k.as_bytes()) {
        Some(j) => Some(&es[j].1),
        None => None,
    }
}

fn push_tree_issue(
    issues: &mut Vec<ValidationIssue>,
    level: ValidationLevel,
    name: &str,
    rest: String,
)
    ensures
        issue_views(final(issues)@) == issue_views(old(issues)@).push((level, tree_message(name@, rest@))),
{
    let mut m = String::new();
    push_str(&mut m, "Name tree '");
    push_str(&mut m, name);
    push_str(&mut m, "': ");
    push_str(&mut m, rest.as_str());
    assert(m@ =~= tree_message(name@, rest@));
    push_issue(issues, level, m);
}

fn walk_node(
    objs: &Vec<(ObjRef, PdfValue)>,
    es: &Vec<(Vec<u8>, PdfValue)>,
    name: &str,
    visited: &mut Vec<ObjRef>,
    issues: &mut Vec<ValidationIssue>,
    depth: usize,
)
    requires
        objects_sorted(objs@),
        depth <= 51,
    ensures
        issue_views(final(issues)@) == issue_views(old(issues)@) + node_walk(
            objs@,
            es@,
            name@,
            old(visited)@,
            depth as nat,
        ).0,
        final(visited)@ == node_walk(objs@, es@, name@, old(visited)@, depth as nat).1,
    decreases 51 - depth, 1nat, 0nat,
{
    if depth > 50 {
        let mut m = String::new();
        push_str(&mut m, "exceeded maximum depth (50)");
        push_tree_issue(issues, ValidationLevel::Warn, name, m);
        return;
    }
    let names = entry_ref(es, "Names");
    let kids = entry_ref(es, "Kids");
    if names.is_none() && kids.is_none() {
        let mut m = String::new();
        push_str(&mut m, "node has neither /Names nor /Kids");
        push_tree_issue(issues, ValidationLevel::Warn, name, m);
        return;
    }
    let ghost base = issue_views(issues@);
    if let Some(PdfValue::Array(a)) = names {
        if a.len() % 2 != 0 {
            let mut m = String::new();
            push_str(&mut m, "/Names array has odd length (");
            push_dec(&mut m, a.len() as u64);
            push_str(&mut m, ")");
            push_tree_issue(issues, ValidationLevel::Warn, name, m);
        }
    }
    let ghost mid = issue_views(issues@);
    if let Some(PdfValue::Array(ks)) = kids {
        walk_kids(objs, ks, name, visited, issues, depth);
        assert(issue_views(issues@) =~= base + node_walk(objs@, es@, name@, old(visited)@, depth as nat).0);
    } else {
        assert(issue_views(issues@) =~= base + node_walk(objs@, es@, name@, old(visited)@, depth as nat).0);
    }
}

fn walk_kids(
    objs: &Vec<(ObjRef, PdfValue)>,
    ks: &Vec<PdfValue>,
    name: &str,
    visited: &mut Vec<ObjRef>,
    issues: &mut Vec<ValidationIssue>,
    depth: usize,
)
    requires
        objects_sorted(objs@),
        depth <= 50,
    ensures
        issue_views(final(issues)@) == issue_views(old(issues)@) + kids_walk(
            objs@,
            ks@,
            name@,
            old(visited)@,
            depth as nat,
            ks@.len(),
        ).0,
        final(visited)@ == kids_walk(objs@, ks@, name@, old(visited)@, depth as nat, ks@.len()).1,
    decreases 51 - depth, 0nat, 0nat,
{
    let ghost v0 = visited@;
    let ghost i0 = issue_views(issues@);
    let mut i: usize = 0;
    assert(i0 =~= i0 + kids_walk(objs@, ks@, name@, v0, depth as nat, 0).0);
    while i < ks.len()
        invariant
            objects_sorted(objs@),
            depth <= 50,
            i <= ks@.len(),
            issue_views(issues@) == i0 + kids_walk(objs@, ks@, name@, v0, depth as nat, i as nat).0,
            visited@ == kids_walk(objs@, ks@, name@, v0, depth as nat, i as nat).1,
        decreases ks.len() - i,
    {
        let ghost before = issue_views(issues@);
        if let PdfValue::Reference(id) = &ks[i] {
            let id = *id;
            if contains_ref(visited, id) {
                let mut m = String::new();
                push_str(&mut m, "cycle detected at object ");
                push_dec(&mut m, id.num as u64);
                push_str(&mut m, " ");
                push_dec(&mut m, id.gen as u64);
                push_tree_issue(issues, ValidationLevel::Error, name, m);
                assert(issue_views(issues@) =~= i0 + kids_walk(objs@, ks@, name@, v0, depth as nat, (i + 1) as nat).0);
            } else {
                visited.push(id);
                if let Some(kd) = plain_dict(objs, id) {
                    walk_node(objs, kd, name, visited, issues, depth + 1);
                    assert(issue_views(issues@) =~= i0 + kids_walk(objs@, ks@, name@, v0, depth as nat, (i + 1) as nat).0);
                } else {
                    assert(issue_views(issues@) =~= i0 + kids_walk(objs@, ks@, name@, v0, depth as nat, (i + 1) as nat).0);
                }
            }
        }
        i = i + 1;
    }
}

fn check_subtree(
    objs: &Vec<(ObjRef, PdfValue)>,
    names: &Vec<(Vec<u8>, PdfValue)>,
    name: &str,
    issues: &mut Vec<ValidationIssue>,
)
    requires
        objects_sorted(objs@),
    ensures
        issue_views(final(issues)@) == issue_views(old(issues)@) + subtree_issues(objs@, names@, name@),
{
    let v = entry_ref(names, name);
    match resolve_dict_value(objs, v) {
        Some(sd) => {
            let mut visited: Vec<ObjRef> = Vec::new();
            assert(visited@ =~= Seq::<ObjRef>::empty());
            walk_node(objs, sd, name, &mut visited, issues, 0);
        },
        None => {
            assert(issue_views(issues@) =~= issue_views(old(issues)@) + subtree_issues(objs@, names@, name@));
        },
    }
}

/// Warnings and errors for the name trees under `/EmbeddedFiles`, `/Dests`,
/// `/JavaScript` and `/AP` of the catalog's `/Names` dictionary: nodes
/// with neither `/Names` nor `/Kids`, odd `/Names` arrays, kids met twice,
/// and nesting deeper than 50.
pub fn check_names_tree_structure(doc: &PdfDoc, issues: &mut Vec<ValidationIssue>)
    requires
        objects_sorted(doc.objects@),
    ensures
        issue_views(final(issues)@) == issue_views(old(issues)@) + names_tree_issues(*doc),
{
    let objs = &doc.objects;
    let root = match ref_value(&doc.trailer, "Root") {
        Some(r) => r,
        None => {
            assert(issue_views(issues@) =~= issue_views(old(issues)@) + names_tree_issues(*doc));
            return;
        },
    };
    let cat = match plain_dict(objs, root) {
        Some(c) => c,
        None => {
            assert(issue_views(issues@) =~= issue_views(old(issues)@) + names_tree_issues(*doc));
            return;
        },
    };
    let nd = match resolve_dict_value(objs, entry_ref(cat, "Names")) {
        Some(nd) => nd,
        None => {
            assert(issue_views(issues@) =~= issue_views(old(issues)@) + names_tree_issues(*doc));
            return;
        },
    };
    let ghost i0 = issue_views(issues@);
    check_subtree(objs, nd, "EmbeddedFiles", issues);
    check_subtree(objs, nd, "Dests", issues);
    check_subtree(objs, nd, "JavaScript", issues);
    check_subtree(objs, nd, "AP", issues);
    assert(issue_views(issues@) =~= i0 + names_tree_issues(*doc));
}

// ── The whole report ─────────────────────────────────────────────────

/// All issues of a document, check by check; `pages` lists its pages in
/// order.
pub open spec fn all_issues(d: PdfDoc, pages: Seq<ObjRef>) -> Seq<IssueSpec> {
    let objs = d.objects@;
    let n = objs.len() as int;
    broken_issues(objs, n) + unreachable_issues(d, n) + catalog_issues(d) + media_issues(objs, pages)
        + length_issues(objs, n) + count_issues(d, pages.len()) + syntax_issues(objs, pages)
        + font_issues(objs, n) + cycle_issues(objs, pages) + names_tree_issues(d) + duplicate_issues(
        objs,
        n,
    )
}

/// How many issues have this level.
pub open spec fn level_count(s: Seq<IssueSpec>, level: ValidationLevel) -> nat
    decreases s.len(),
{
    if s.len() == 0 {
        0
    } else {
        level_count(s.drop_last(), level) + if s.last().0 == level {
            1nat
        } else {
            0nat
        }
    }
}

/// The issues of a document with their count per level.
pub struct ValidationReport {
    pub issues: Vec<ValidationIssue>,
    pub error_count: usize,
    pub warn_count: usize,
    pub info_count: usize,
}

fn count_level(issues: &Vec<ValidationIssue>, level: ValidationLevel) -> (c: usize)
    ensures
        c == level_count(issue_views(issues@), level),
{
    let mut c: usize = 0;
    let mut i: usize = 0;
    while i < issues.len()
        invariant
            i <= issues@.len(),
            c == level_count(issue_views(issues@.take(i as int)), level),
            c <= i,
        decreases issues.len() - i,
    {
        assert(issue_views(issues@.take(i + 1)).drop_last() =~= issue_views(issues@.take(i as int)));
        if issues[i].level == level {
            c = c + 1;
        }
        i = i + 1;
    }
    assert(issues@.take(issues@.len() as int) =~= issues@);
    c
}

/// Runs every check in turn: broken references, unreachable objects,
/// required keys, stream lengths, the page count, content syntax, fonts,
/// `/Parent` cycles, name trees and duplicate objects; `pages` lists the
/// document's pages in order.
pub fn validate_pdf(doc: &PdfDoc, pages: &Vec<ObjRef>) -> (r: ValidationReport)
    requires
        objects_sorted(doc.objects@),
    ensures
        issue_views(r.issues@) == all_issues(*doc, pages@),
        r.error_count == level_count(all_issues(*doc, pages@), ValidationLevel::Error),
        r.warn_count == level_count(all_issues(*doc, pages@), ValidationLevel::Warn),
        r.info_count == level_count(all_issues(*doc, pages@), ValidationLevel::Info),
{
    let mut issues: Vec<ValidationIssue> = Vec::new();
    assert(issue_views(issues@) =~= Seq::<IssueSpec>::empty());
    check_broken_references(doc, &mut issues);
    check_unreachable_objects(doc, &mut issues);
    check_required_keys(doc, pages, &mut issues);
    check_stream_lengths(doc, &mut issues);
    check_page_tree(doc, pages.len(), &mut issues);
    check_content_stream_syntax(doc, pages, &mut issues);
    check_font_requirements(doc, &mut issues);
    check_page_tree_cycles(doc, pages, &mut issues);
    check_names_tree_structure(doc, &mut issues);
    check_duplicate_objects(doc, &mut issues);
    assert(issue_views(issues@) =~= all_issues(*doc, pages@));
    let error_count = count_level(&issues, ValidationLevel::Error);
    let warn_count = count_level(&issues, ValidationLevel::Warn);
    let info_count = count_level(&issues, ValidationLevel::Info);
    ValidationReport { issues, error_count, warn_count, info_count }
}

/// Every issue has exactly one of the three levels, so the three counts add
/// up to the number of issues.
pub proof fn law_level_counts_add_up(s: Seq<IssueSpec>)
    ensures
        level_count(s, ValidationLevel::Error) + level_count(s, ValidationLevel::Warn) + level_count(
            s,
            ValidationLevel::Info,
        ) == s.len(),
    decreases s.len(),
{
    if s.len() > 0 {
        law_level_counts_add_up(s.drop_last());
    }
}

pub open spec fn level_prefix(level: ValidationLevel) -> Seq<char> {
    match level {
        ValidationLevel::Error => "[ERROR]"@,
        ValidationLevel::Warn => "[WARN]"@,
        ValidationLevel::Info => "[INFO]"@,
    }
}

/// The text report: one line per issue and a summary, or a single line
/// when there is nothing to report.
pub open spec fn validation_lines(issues: Seq<IssueSpec>, e: nat, w: nat, i: nat) -> Seq<Seq<char>> {
    if issues.len() == 0 {
        seq!["[OK] No issues found."@]
    } else {
        issues.map_values(|x: IssueSpec| level_prefix(x.0) + " "@ + x.1) + seq![
            Seq::empty(),
            "Summary: "@ + dec(e) + " errors, "@ + dec(w) + " warnings, "@ + dec(i) + " info"@,
        ]
    }
}

pub(crate) fn prefix_text(level: ValidationLevel) -> (r: &'static str)
    ensures
        r@ == level_prefix(level),
{
    match level {
        ValidationLevel::Error => "[ERROR]",
        ValidationLevel::Warn => "[WARN]",
        ValidationLevel::Info => "[INFO]",
    }
}

/// The text report of a validation, line by line.
pub fn validation_report(report: &ValidationReport) -> (r: Vec<String>)
    ensures
        views(r@) == validation_lines(
            issue_views(report.issues@),
            report.error_count as nat,
            report.warn_count as nat,
            report.info_count as nat,
        ),
{
    let mut lines: Vec<String> = Vec::new();
    let ghost iv = issue_views(report.issues@);
    if report.issues.len() == 0 {
        let mut m = String::new();
        push_str(&mut m, "[OK] No issues found.");
        push_line(&mut lines, m);
        assert(views(lines@) =~= validation_lines(
            iv,
            report.error_count as nat,
            report.warn_count as nat,
            report.info_count as nat,
        ));
        return lines;
    }
    let ghost f = |x: IssueSpec| level_prefix(x.0) + " "@ + x.1;
    let mut k: usize = 0;
    assert(views(lines@) =~= iv.take(0).map_values(f));
    while k < report.issues.len()
        invariant
            k <= report.issues@.len(),
            iv == issue_views(report.issues@),
            f == (|x: IssueSpec| level_prefix(x.0) + " "@ + x.1),
            views(lines@) == iv.take(k as int).map_values(f),
        decreases report.issues.len() - k,
    {
        let issue = &report.issues[k];
        let mut m = String::new();
        push_str(&mut m, prefix_text(issue.level));
        push_str(&mut m, " ");
        push_str(&mut m, issue.message.as_str());
        push_line(&mut lines, m);
        assert(iv.take(k + 1).map_values(f) =~= iv.take(k as int).map_values(f).push(f(iv[k as int])));
        k = k + 1;
    }
    assert(iv.take(iv.len() as int) =~= iv);
    push_line(&mut lines, String::new());
    let mut m = String::new();
    push_str(&mut m, "Summary: ");
    push_dec(&mut m, report.error_count as u64);
    push_str(&mut m, " errors, ");
    push_dec(&mut m, report.warn_count as u64);
    push_str(&mut m, " warnings, ");
    push_dec(&mut m, report.info_count as u64);
    push_str(&mut m, " info");
    push_line(&mut lines, m);
    assert(views(lines@) =~= validation_lines(
        iv,
        report.error_count as nat,
        report.warn_count as nat,
        report.info_count as nat,
    ));
    lines
}

} // verus!
