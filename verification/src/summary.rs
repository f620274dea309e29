//! The document overview: counts, metadata, validation, object kinds,
//! stream figures and features, and the one-line summary of an object.
use vstd::prelude::*;
use crate::counts::{tally_keys, tally_of, tally_views, Tally};
use crate::model::{bytes_eq, entry_get, find_entry, objects_sorted, ObjRef, PdfDoc, PdfValue};
use crate::stats::{by_size, decoded_total, filter_keys, first_at_most, raw_total, size_views, stream_sizes};
use crate::stream::{lossy_string, utf8_lossy};
use crate::object::{object_type_label, type_label};
use crate::refs::{enum_variant, kind_name};
use crate::textbuf::{dec, dec_int, join_with, pad_left, pad_right, push_padded_dec, push_dec, push_dec_i64, push_dec_u128, push_joined, push_line, push_padded_right, push_str, views};
use crate::validate::{
    all_issues, issue_views, key, level_count, level_prefix, plain_dict_at, resolved_dict, root_ref, validate_pdf,
    IssueSpec, ValidationLevel,
};

verus! {

/// The plural name under which the overview counts a value's kind.
pub open spec fn kind_plural(v: PdfValue) -> Seq<char> {
    match v {
        PdfValue::Boolean(_) => "booleans"@,
        PdfValue::Integer(_) => "integers"@,
        PdfValue::Real(_) => "reals"@,
        PdfValue::Name(_) => "names"@,
        PdfValue::Str(_) => "strings"@,
        PdfValue::Array(_) => "arrays"@,
        PdfValue::Dictionary(_) => "dictionaries"@,
        PdfValue::Stream { .. } => "streams"@,
        PdfValue::Reference(_) => "references"@,
        PdfValue::Null => "nulls"@,
    }
}

fn plural_text(v: &PdfValue) -> (r: &'static str)
    ensures
        r@ == kind_plural(*v),
{
    match v {
        PdfValue::Boolean(_) => "booleans",
        PdfValue::Integer(_) => "integers",
        PdfValue::Real(_) => "reals",
        PdfValue::Name(_) => "names",
        PdfValue::Str(_) => "strings",
        PdfValue::Array(_) => "arrays",
        PdfValue::Dictionary(_) => "dictionaries",
        PdfValue::Stream { .. } => "streams",
        PdfValue::Reference(_) => "references",
        PdfValue::Null => "nulls",
    }
}

pub open spec fn plural_keys(objs: Seq<(ObjRef, PdfValue)>) -> Seq<Seq<char>> {
    objs.map_values(|e: (ObjRef, PdfValue)| kind_plural(e.1))
}

/// How many objects there are of each kind, kinds in ascending order.
pub fn count_object_types(doc: &PdfDoc) -> (r: Vec<(String, usize)>)
    ensures
        tally_views(r@) == tally_of(plural_keys(doc.objects@)),
{
    let objs = &doc.objects;
    let mut keys: Vec<String> = Vec::new();
    let mut k: usize = 0;
    while k < objs.len()
        invariant
            k <= objs@.len(),
            keys@.map_values(|s: String| s@) == plural_keys(objs@).take(k as int),
        decreases objs.len() - k,
    {
        let ghost before = keys@.map_values(|s: String| s@);
        let mut s = String::new();
        push_str(&mut s, plural_text(&objs[k].1));
        keys.push(s);
        assert(keys@.map_values(|s: String| s@) =~= before.push(kind_plural(objs@[k as int].1)));
        assert(plural_keys(objs@)[k as int] == kind_plural(objs@[k as int].1));
        assert(plural_keys(objs@).take(k + 1) =~= plural_keys(objs@).take(k as int).push(
            kind_plural(objs@[k as int].1),
        ));
        k = k + 1;
    }
    assert(plural_keys(objs@).take(objs@.len() as int) =~= plural_keys(objs@));
    tally_keys(&keys)
}

/// Stream figures for the overview.
pub struct StreamStats {
    pub count: usize,
    pub total_bytes: u128,
    /// The decoded total, when decoding was asked for.
    pub total_decoded_bytes: Option<u128>,
    pub filter_counts: Vec<(String, usize)>,
    /// The three largest streams (or fewer) by number, largest first.
    pub largest: Vec<(u32, usize)>,
}

pub open spec fn largest_views(s: Seq<(u32, usize)>) -> Seq<(u32, nat)> {
    s.map_values(|e: (u32, usize)| (e.0, e.1 as nat))
}

pub open spec fn by_number(s: Seq<(ObjRef, nat)>) -> Seq<(u32, nat)> {
    s.map_values(|e: (ObjRef, nat)| (e.0.num, e.1))
}

/// Gathers stream counts, sizes and filters; decodes each stream only when
/// `decode` is set.
pub fn collect_stream_stats(doc: &PdfDoc, decode: bool) -> (r: StreamStats)
    ensures
        r.count == stream_sizes(doc.objects@, doc.objects@.len() as int).len(),
        r.total_bytes == raw_total(doc.objects@, doc.objects@.len() as int),
        r.total_decoded_bytes == (if decode {
            Some(decoded_total(doc.objects@, doc.objects@.len() as int) as u128)
        } else {
            None
        }),
        decoded_total(doc.objects@, doc.objects@.len() as int) <= u128::MAX,
        tally_views(r.filter_counts@) == tally_of(filter_keys(doc.objects@, doc.objects@.len() as int)),
        largest_views(r.largest@) == by_number(
            first_at_most(by_size(stream_sizes(doc.objects@, doc.objects@.len() as int)), 3),
        ),
{
    let st = crate::stats::collect_stats(doc, 0);
    let n = doc.objects.len();
    proof {
        lemma_stream_count(doc.objects@, n as int);
    }
    let ghost all = by_size(stream_sizes(doc.objects@, n as int));
    let mut largest: Vec<(u32, usize)> = Vec::new();
    let mut i: usize = 0;
    let lg = &st.largest_streams;
    while i < lg.len() && i < 3
        invariant
            i <= lg@.len(),
            i <= 3,
            size_views(lg@) == first_at_most(all, 10),
            largest_views(largest@) == by_number(size_views(lg@).take(i as int)),
        decreases lg.len() - i,
    {
        let ghost before = largest_views(largest@);
        largest.push((lg[i].0.num, lg[i].1));
        assert(largest_views(largest@) =~= before.push((lg@[i as int].0.num, lg@[i as int].1 as nat)));
        assert(size_views(lg@)[i as int] == (lg@[i as int].0, lg@[i as int].1 as nat));
        assert(size_views(lg@).take(i + 1) =~= size_views(lg@).take(i as int).push(size_views(lg@)[i as int]));
        assert(largest_views(largest@) =~= by_number(size_views(lg@).take(i + 1)));
        i = i + 1;
    }
    proof {
        if all.len() <= 3 {
            assert(size_views(lg@) == all);
            assert(size_views(lg@).take(i as int) =~= all);
        } else {
            assert(i == 3);
            assert(size_views(lg@).take(3) =~= all.take(3));
        }
    }
    assert(by_number(size_views(lg@).take(i as int)) =~= by_number(first_at_most(all, 3)));
    let count = count_streams(doc);
    StreamStats {
        count,
        total_bytes: st.total_stream_bytes,
        total_decoded_bytes: if decode {
            Some(st.total_decoded_bytes)
        } else {
            None
        },
        filter_counts: st.filter_counts,
        largest,
    }
}

proof fn lemma_stream_count(objs: Seq<(ObjRef, PdfValue)>, n: int)
    requires
        0 <= n <= objs.len(),
    ensures
        stream_sizes(objs, n).len() <= n,
    decreases n,
{
    if n > 0 {
        lemma_stream_count(objs, n - 1);
    }
}

fn count_streams(doc: &PdfDoc) -> (c: usize)
    ensures
        c == stream_sizes(doc.objects@, doc.objects@.len() as int).len(),
{
    let objs = &doc.objects;
    let mut c: usize = 0;
    let mut k: usize = 0;
    while k < objs.len()
        invariant
            k <= objs@.len(),
            c == stream_sizes(objs@, k as int).len(),
            c <= k,
        decreases objs.len() - k,
    {
        if let PdfValue::Stream { .. } = &objs[k].1 {
            c = c + 1;
        }
        k = k + 1;
    }
    c
}

/// A dictionary key the object list shows.
pub open spec fn is_notable(k: Seq<u8>) -> bool {
    k == key("BaseFont"@) || k == key("Subtype"@) || k == key("MediaBox"@)
}

/// An array item in a notable entry: a number's text, else `?`.
pub open spec fn number_text(v: PdfValue) -> Seq<char> {
    match v {
        PdfValue::Integer(i) => dec_int(i as int),
        PdfValue::Real(r) => r@,
        _ => "?"@,
    }
}

pub open spec fn notable_text(k: Seq<u8>, v: PdfValue) -> Seq<char> {
    "/"@ + utf8_lossy(k) + match v {
        PdfValue::Name(n) => "="@ + utf8_lossy(n@),
        PdfValue::Array(items) => "=["@ + join_with(items@.map_values(|x: PdfValue| number_text(x)), " "@) + "]"@,
        _ => "=..."@,
    }
}

/// The notable entries among the first `n`, described.
pub open spec fn notables(es: Seq<(Vec<u8>, PdfValue)>, n: int) -> Seq<Seq<char>>
    decreases n,
{
    if n <= 0 {
        Seq::empty()
    } else {
        notables(es, n - 1) + if is_notable(es[n - 1].0@) {
            seq![notable_text(es[n - 1].0@, es[n - 1].1)]
        } else {
            Seq::empty()
        }
    }
}

/// The name a stream's `/Filter` holds, as text, or nothing.
pub open spec fn single_filter(dict: Seq<(Vec<u8>, PdfValue)>) -> Seq<char> {
    match entry_get(dict, key("Filter"@)) {
        Some(PdfValue::Name(n)) => utf8_lossy(n@),
        _ => Seq::empty(),
    }
}

/// An object's one-line detail: a stream's size and filter; a
/// dictionary's first three of `/BaseFont`, `/Subtype`, `/MediaBox`, or
/// its number of keys; nothing for other values.
pub open spec fn detail_of(v: PdfValue) -> Seq<char> {
    match v {
        PdfValue::Stream { dict, content } => {
            let f = single_filter(dict@);
            if f.len() == 0 {
                dec(content@.len()) + " bytes"@
            } else {
                dec(content@.len()) + " bytes"@ + ", "@ + f
            }
        },
        PdfValue::Dictionary(es) => {
            let ns = notables(es@, es@.len() as int);
            if ns.len() == 0 {
                dec(es@.len()) + " keys"@
            } else {
                join_with(ns.take(if ns.len() < 3 { ns.len() as int } else { 3 }), ", "@)
            }
        },
        _ => Seq::empty(),
    }
}

fn notable_key(k: &Vec<u8>) -> (r: bool)
    ensures
        r == is_notable(k@),
{
    bytes_eq(k.as_slice(), "BaseFont".as_bytes()) || bytes_eq(k.as_slice(), "Subtype".as_bytes()) || bytes_eq(
        k.as_slice(),
        "MediaBox".as_bytes(),
    )
}

fn push_number_text(s: &mut String, v: &PdfValue)
    ensures
        final(s)@ == old(s)@ + number_text(*v),
{
    match v {
        PdfValue::Integer(i) => push_dec_i64(s, *i),
        PdfValue::Real(r) => push_str(s, r.as_str()),
        _ => push_str(s, "?"),
    }
}

fn notable_string(k: &Vec<u8>, v: &PdfValue) -> (r: String)
    ensures
        r@ == notable_text(k@, *v),
{
    let mut s = String::new();
    push_str(&mut s, "/");
    let kt = lossy_string(k.as_slice());
    push_str(&mut s, kt.as_str());
    match v {
        PdfValue::Name(n) => {
            push_str(&mut s, "=");
            let t = lossy_string(n.as_slice());
            push_str(&mut s, t.as_str());
        },
        PdfValue::Array(items) => {
            push_str(&mut s, "=[");
            let mut parts: Vec<String> = Vec::new();
            let mut i: usize = 0;
            while i < items.len()
                invariant
                    i <= items@.len(),
                    views(parts@) == items@.take(i as int).map_values(|x: PdfValue| number_text(x)),
                decreases items.len() - i,
            {
                let mut p = String::new();
                push_number_text(&mut p, &items[i]);
                push_line(&mut parts, p);
                assert(items@.take(i + 1).map_values(|x: PdfValue| number_text(x)) =~= items@.take(
                    i as int,
                ).map_values(|x: PdfValue| number_text(x)).push(number_text(items@[i as int])));
                i = i + 1;
            }
            assert(items@.take(items@.len() as int) =~= items@);
            push_joined(&mut s, &parts, " ");
            push_str(&mut s, "]");
        },
        _ => {
            push_str(&mut s, "=...");
        },
    }
    s
}

/// An object's one-line detail for the object list.
pub fn summary_detail(v: &PdfValue) -> (r: String)
    ensures
        r@ == detail_of(*v),
{
    let mut s = String::new();
    match v {
        PdfValue::Stream { dict, content } => {
            push_dec(&mut s, content.len() as u64);
            push_str(&mut s, " bytes");
            let f = match find_entry(dict, "Filter".as_bytes()) {
                Some(j) => match &dict[j].1 {
                    PdfValue::Name(n) => lossy_string(n.as_slice()),
                    _ => String::new(),
                },
                None => String::new(),
            };
            assert(f@ == single_filter(dict@));
            if f.unicode_len() > 0 {
                push_str(&mut s, ", ");
                push_str(&mut s, f.as_str());
            }
        },
        PdfValue::Dictionary(es) => {
            let mut ns: Vec<String> = Vec::new();
            let mut i: usize = 0;
            while i < es.len()
                invariant
                    i <= es@.len(),
                    views(ns@) == notables(es@, i as int),
                decreases es.len() - i,
            {
                if notable_key(&es[i].0) {
                    push_line(&mut ns, notable_string(&es[i].0, &es[i].1));
                }
                i = i + 1;
            }
            if ns.len() == 0 {
                push_dec(&mut s, es.len() as u64);
                push_str(&mut s, " keys");
            } else {
                let ghost all = views(ns@);
                ns.truncate(3);
                assert(views(ns@) =~= all.take(if all.len() < 3 {
                    all.len() as int
                } else {
                    3
                }));
                push_joined(&mut s, &ns, ", ");
            }
        },
        _ => {},
    }
    s
}

/// The `/Info` or catalog entry under `f`, as a field and its text: a
/// string's text, or (where names count) a name with its slash.
pub open spec fn field_pair(es: Seq<(Vec<u8>, PdfValue)>, f: Seq<char>, names: bool) -> Seq<
    (Seq<char>, Seq<char>),
> {
    match entry_get(es, key(f)) {
        Some(PdfValue::Str(b)) => seq![(f, utf8_lossy(b@))],
        Some(PdfValue::Name(n)) => if names {
            seq![(f, "/"@ + utf8_lossy(n@))]
        } else {
            Seq::empty()
        },
        _ => Seq::empty(),
    }
}

/// The document information fields that are strings, by field name.
pub open spec fn info_pairs(d: PdfDoc) -> Seq<(Seq<char>, Seq<char>)> {
    match resolved_dict(d.objects@, entry_get(d.trailer@, key("Info"@))) {
        None => Seq::empty(),
        Some(es) => field_pair(es, "Author"@, false) + field_pair(es, "CreationDate"@, false) + field_pair(
            es,
            "Creator"@,
            false,
        ) + field_pair(es, "Keywords"@, false) + field_pair(es, "ModDate"@, false) + field_pair(
            es,
            "Producer"@,
            false,
        ) + field_pair(es, "Subject"@, false) + field_pair(es, "Title"@, false),
    }
}

/// The catalog's `/Lang`, `/PageLayout` and `/PageMode`, where they are
/// names or strings.
pub open spec fn catalog_pairs(d: PdfDoc) -> Seq<(Seq<char>, Seq<char>)> {
    match root_ref(d) {
        None => Seq::empty(),
        Some(r) => match plain_dict_at(d.objects@, r) {
            None => Seq::empty(),
            Some(cat) => field_pair(cat, "Lang"@, true) + field_pair(cat, "PageLayout"@, true) + field_pair(
                cat,
                "PageMode"@,
                true,
            ),
        },
    }
}

pub open spec fn pair_views(s: Seq<(String, String)>) -> Seq<(Seq<char>, Seq<char>)> {
    s.map_values(|p: (String, String)| (p.0@, p.1@))
}

fn push_field(out: &mut Vec<(String, String)>, es: &Vec<(Vec<u8>, PdfValue)>, f: &str, names: bool)
    ensures
        pair_views(final(out)@) == pair_views(old(out)@) + field_pair(es@, f@, names),
{
    let ghost before = pair_views(out@);
    if let Some(j) = find_entry(es, f.as_bytes()) {
        match &es[j].1 {
            PdfValue::Str(b) => {
                let mut k = String::new();
                push_str(&mut k, f);
                out.push((k, lossy_string(b.as_slice())));
            },
            PdfValue::Name(n) => {
                if names {
                    let mut k = String::new();
                    push_str(&mut k, f);
                    let mut v = String::new();
                    push_str(&mut v, "/");
                    let t = lossy_string(n.as_slice());
                    push_str(&mut v, t.as_str());
                    out.push((k, v));
                }
            },
            _ => {},
        }
    }
    assert(pair_views(out@) =~= before + field_pair(es@, f@, names));
}

/// The string fields of the document information dictionary and the
/// catalog's layout, mode and language, each list in field-name order.
pub fn metadata_info(doc: &PdfDoc) -> (r: (Vec<(String, String)>, Vec<(String, String)>))
    requires
        objects_sorted(doc.objects@),
    ensures
        pair_views(r.0@) == info_pairs(*doc),
        pair_views(r.1@) == catalog_pairs(*doc),
{
    let mut info: Vec<(String, String)> = Vec::new();
    let mut catalog: Vec<(String, String)> = Vec::new();
    assert(pair_views(info@) =~= Seq::<(Seq<char>, Seq<char>)>::empty());
    assert(pair_views(catalog@) =~= Seq::<(Seq<char>, Seq<char>)>::empty());
    let iv = match find_entry(&doc.trailer, "Info".as_bytes()) {
        Some(j) => Some(&doc.trailer[j].1),
        None => None,
    };
    if let Some(es) = crate::validate::resolve_dict_value(&doc.objects, iv) {
        push_field(&mut info, es, "Author", false);
        push_field(&mut info, es, "CreationDate", false);
        push_field(&mut info, es, "Creator", false);
        push_field(&mut info, es, "Keywords", false);
        push_field(&mut info, es, "ModDate", false);
        push_field(&mut info, es, "Producer", false);
        push_field(&mut info, es, "Subject", false);
        push_field(&mut info, es, "Title", false);
    }
    if let Some(r) = crate::validate::ref_value(&doc.trailer, "Root") {
        if let Some(cat) = crate::validate::plain_dict(&doc.objects, r) {
            push_field(&mut catalog, cat, "Lang", true);
            push_field(&mut catalog, cat, "PageLayout", true);
            push_field(&mut catalog, cat, "PageMode", true);
        }
    }
    (info, catalog)
}

/// Placing one more filter after every filter used at least as often.
pub open spec fn insert_by_count(t: Tally, x: (Seq<char>, nat)) -> Tally
    decreases t.len(),
{
    if t.len() == 0 {
        seq![x]
    } else if t[0].1 < x.1 {
        seq![x] + t
    } else {
        seq![t[0]] + insert_by_count(t.drop_first(), x)
    }
}

/// Filters from most to least used; equal counts keep their order.
pub open spec fn by_count(t: Tally) -> Tally
    decreases t.len(),
{
    if t.len() == 0 {
        Seq::empty()
    } else {
        insert_by_count(by_count(t.drop_last()), t.last())
    }
}

pub open spec fn meta_line(p: (Seq<char>, Seq<char>)) -> Seq<char> {
    pad_right(p.0 + ":"@, 13) + p.1
}

pub open spec fn issue_line(x: IssueSpec) -> Seq<char> {
    "  "@ + level_prefix(x.0) + " "@ + x.1
}

pub open spec fn validation_part(iv: Seq<IssueSpec>) -> Seq<Seq<char>> {
    if iv.len() == 0 {
        seq!["Validation:  no issues found"@]
    } else {
        seq![
            "Validation:  "@ + dec(level_count(iv, ValidationLevel::Error)) + " errors, "@ + dec(
                level_count(iv, ValidationLevel::Warn),
            ) + " warnings, "@ + dec(level_count(iv, ValidationLevel::Info)) + " info"@,
        ] + iv.map_values(|x: IssueSpec| issue_line(x))
    }
}

pub open spec fn types_part(t: Tally) -> Seq<Seq<char>> {
    if t.len() == 0 {
        Seq::empty()
    } else {
        seq!["Types:       "@ + join_with(t.map_values(|e: (Seq<char>, nat)| dec(e.1) + " "@ + e.0), ", "@)]
    }
}

pub open spec fn streams_line(count: nat, raw: nat, decoded: Option<nat>) -> Seq<char> {
    match decoded {
        Some(d) => if d != raw {
            "Streams:     "@ + dec(count) + " ("@ + dec(raw) + " bytes raw, "@ + dec(d) + " decoded)"@
        } else {
            "Streams:     "@ + dec(count) + " ("@ + dec(raw) + " bytes)"@
        },
        None => "Streams:     "@ + dec(count) + " ("@ + dec(raw) + " bytes)"@,
    }
}

pub open spec fn filters_part(t: Tally) -> Seq<Seq<char>> {
    if t.len() == 0 {
        Seq::empty()
    } else {
        seq![
            "  Filters:   "@ + join_with(
                by_count(t).map_values(|e: (Seq<char>, nat)| e.0 + " \u{00d7}"@ + dec(e.1)),
                ", "@,
            ),
        ]
    }
}

pub open spec fn largest_part(l: Seq<(u32, nat)>, count: nat) -> Seq<Seq<char>> {
    if l.len() == 0 || count <= 1 {
        Seq::empty()
    } else {
        seq![
            "  Largest:   "@ + join_with(
                l.map_values(|e: (u32, nat)| "#"@ + dec(e.0 as nat) + " ("@ + dec(e.1) + " B)"@),
                ", "@,
            ),
        ]
    }
}

pub open spec fn features_part(f: Seq<Seq<char>>) -> Seq<Seq<char>> {
    if f.len() == 0 {
        Seq::empty()
    } else {
        seq!["Features:    "@ + join_with(f, ", "@)]
    }
}

pub open spec fn overview_head(d: PdfDoc, version: Seq<char>, page_count: nat, encrypted: bool) -> Seq<Seq<char>> {
    seq![
        "PDF Version: "@ + version,
        "Objects:     "@ + dec(d.objects@.len()),
        "Pages:       "@ + dec(page_count),
        "Encrypted:   "@ + if encrypted {
            "yes"@
        } else {
            "no"@
        },
    ] + info_pairs(d).map_values(|p: (Seq<char>, Seq<char>)| meta_line(p)) + catalog_pairs(d).map_values(
        |p: (Seq<char>, Seq<char>)| meta_line(p),
    ) + seq![Seq::empty()]
}

pub open spec fn stream_part(d: PdfDoc, decode: bool) -> Seq<Seq<char>> {
    let objs = d.objects@;
    let n = objs.len() as int;
    let sizes = stream_sizes(objs, n);
    seq![
        Seq::empty(),
        streams_line(
            sizes.len(),
            raw_total(objs, n),
            if decode {
                Some(decoded_total(objs, n))
            } else {
                None
            },
        ),
    ] + filters_part(tally_of(filter_keys(objs, n))) + largest_part(
        by_number(first_at_most(by_size(sizes), 3)),
        sizes.len(),
    )
}

/// The overview of a document, line by line.
pub open spec fn overview_lines(
    d: PdfDoc,
    version: Seq<char>,
    pages: Seq<ObjRef>,
    encrypted: bool,
    decode: bool,
    features: Seq<Seq<char>>,
) -> Seq<Seq<char>> {
    overview_head(d, version, pages.len(), encrypted) + validation_part(all_issues(d, pages)) + types_part(
        tally_of(plural_keys(d.objects@)),
    ) + stream_part(d, decode) + features_part(features) + seq![
        Seq::empty(),
        "Tip: Use --json for machine-readable output."@,
    ]
}

proof fn lemma_insert_by_count_at(t: Tally, x: (Seq<char>, nat), p: int)
    requires
        0 <= p <= t.len(),
        forall|i: int| 0 <= i < p ==> !((#[trigger] t[i]).1 < x.1),
    ensures
        insert_by_count(t, x) == t.take(p) + insert_by_count(t.skip(p), x),
    decreases p,
{
    if p > 0 {
        let rest = t.drop_first();
        assert forall|i: int| 0 <= i < p - 1 implies !((#[trigger] rest[i]).1 < x.1) by {
            assert(rest[i] == t[i + 1]);
        }
        lemma_insert_by_count_at(rest, x, p - 1);
        assert(rest.skip(p - 1) =~= t.skip(p));
        assert(t.take(p) =~= seq![t[0]] + rest.take(p - 1));
    } else {
        assert(t.skip(0) =~= t);
        assert(t.take(0) + insert_by_count(t.skip(0), x) =~= insert_by_count(t, x));
    }
}

fn sort_by_count(t: &Vec<(String, usize)>) -> (r: Vec<(String, usize)>)
    ensures
        tally_views(r@) == by_count(tally_views(t@)),
{
    let ghost tv = tally_views(t@);
    let mut out: Vec<(String, usize)> = Vec::new();
    let mut i: usize = 0;
    assert(tally_views(out@) =~= by_count(tv.take(0)));
    while i < t.len()
        invariant
            i <= t@.len(),
            tv == tally_views(t@),
            tally_views(out@) == by_count(tv.take(i as int)),
        decreases t.len() - i,
    {
        assert(tv.take(i + 1).drop_last() =~= tv.take(i as int));
        let x = (t[i].0.clone(), t[i].1);
        let ghost xv = (x.0@, x.1 as nat);
        assert(xv == tv[i as int]);
        let ghost ov = tally_views(out@);
        let mut p: usize = 0;
        while p < out.len()
            invariant
                p <= out@.len(),
                ov == tally_views(out@),
                xv.1 == x.1,
                forall|j: int| 0 <= j < p ==> !((#[trigger] ov[j]).1 < xv.1),
            ensures
                p <= out@.len(),
                ov == tally_views(out@),
                forall|j: int| 0 <= j < p ==> !((#[trigger] ov[j]).1 < xv.1),
                p < out@.len() ==> ov[p as int].1 < xv.1,
            decreases out.len() - p,
        {
            if out[p].1 < x.1 {
                break;
            }
            p = p + 1;
        }
        proof {
            lemma_insert_by_count_at(ov, xv, p as int);
            let rest = ov.skip(p as int);
            if p < out@.len() {
                assert(rest[0] == ov[p as int]);
            }
            assert(insert_by_count(rest, xv) == seq![xv] + rest);
        }
        out.insert(p, x);
        assert(tally_views(out@) =~= ov.take(p as int) + insert_by_count(ov.skip(p as int), xv));
        i = i + 1;
    }
    assert(tv.take(tv.len() as int) =~= tv);
    out
}

fn push_meta_lines(lines: &mut Vec<String>, ps: &Vec<(String, String)>)
    ensures
        views(final(lines)@) == views(old(lines)@) + pair_views(ps@).map_values(
            |p: (Seq<char>, Seq<char>)| meta_line(p),
        ),
{
    let ghost pv = pair_views(ps@);
    let ghost f = |p: (Seq<char>, Seq<char>)| meta_line(p);
    let mut i: usize = 0;
    assert(views(lines@) =~= views(old(lines)@) + pv.take(0).map_values(f));
    while i < ps.len()
        invariant
            i <= ps@.len(),
            pv == pair_views(ps@),
            f == (|p: (Seq<char>, Seq<char>)| meta_line(p)),
            views(lines@) == views(old(lines)@) + pv.take(i as int).map_values(f),
        decreases ps.len() - i,
    {
        let mut k = ps[i].0.clone();
        push_str(&mut k, ":");
        let mut s = String::new();
        push_padded_right(&mut s, k.as_str(), 13);
        push_str(&mut s, ps[i].1.as_str());
        push_line(lines, s);
        assert(pv.take(i + 1).map_values(f) =~= pv.take(i as int).map_values(f).push(f(pv[i as int])));
        i = i + 1;
    }
    assert(pv.take(pv.len() as int) =~= pv);
}

fn text_line(t: &str) -> (s: String)
    ensures
        s@ == t@,
{
    let mut s = String::new();
    push_str(&mut s, t);
    s
}

fn validation_lines_for(lines: &mut Vec<String>, report: &crate::validate::ValidationReport, Ghost(iv): Ghost<Seq<IssueSpec>>)
    requires
        issue_views(report.issues@) == iv,
        report.error_count == level_count(iv, ValidationLevel::Error),
        report.warn_count == level_count(iv, ValidationLevel::Warn),
        report.info_count == level_count(iv, ValidationLevel::Info),
    ensures
        views(final(lines)@) == views(old(lines)@) + validation_part(iv),
{
    if report.issues.len() == 0 {
        push_line(lines, text_line("Validation:  no issues found"));
        assert(views(lines@) =~= views(old(lines)@) + validation_part(iv));
        return;
    }
    let mut h = String::new();
    push_str(&mut h, "Validation:  ");
    push_dec(&mut h, report.error_count as u64);
    push_str(&mut h, " errors, ");
    push_dec(&mut h, report.warn_count as u64);
    push_str(&mut h, " warnings, ");
    push_dec(&mut h, report.info_count as u64);
    push_str(&mut h, " info");
    push_line(lines, h);
    let ghost base = views(lines@);
    let ghost f = |x: IssueSpec| issue_line(x);
    let mut i: usize = 0;
    assert(views(lines@) =~= base + iv.take(0).map_values(f));
    while i < report.issues.len()
        invariant
            i <= report.issues@.len(),
            iv == issue_views(report.issues@),
            f == (|x: IssueSpec| issue_line(x)),
            views(lines@) == base + iv.take(i as int).map_values(f),
        decreases report.issues.len() - i,
    {
        let issue = &report.issues[i];
        let mut s = String::new();
        push_str(&mut s, "  ");
        push_str(&mut s, crate::validate::prefix_text(issue.level));
        push_str(&mut s, " ");
        push_str(&mut s, issue.message.as_str());
        push_line(lines, s);
        assert(iv.take(i + 1).map_values(f) =~= iv.take(i as int).map_values(f).push(f(iv[i as int])));
        i = i + 1;
    }
    assert(iv.take(iv.len() as int) =~= iv);
    assert(views(lines@) =~= views(old(lines)@) + validation_part(iv));
}

fn push_types_line(lines: &mut Vec<String>, doc: &PdfDoc)
    ensures
        views(final(lines)@) == views(old(lines)@) + types_part(tally_of(plural_keys(doc.objects@))),
{
    let types = count_object_types(doc);
    if types.len() > 0 {
        let mut parts: Vec<String> = Vec::new();
        let ghost tv = tally_views(types@);
        let mut i: usize = 0;
        while i < types.len()
            invariant
                i <= types@.len(),
                tv == tally_views(types@),
                views(parts@) == tv.take(i as int).map_values(|e: (Seq<char>, nat)| dec(e.1) + " "@ + e.0),
            decreases types.len() - i,
        {
            let mut s = String::new();
            push_dec(&mut s, types[i].1 as u64);
            push_str(&mut s, " ");
            push_str(&mut s, types[i].0.as_str());
            push_line(&mut parts, s);
            assert(tv.take(i + 1).map_values(|e: (Seq<char>, nat)| dec(e.1) + " "@ + e.0) =~= tv.take(
                i as int,
            ).map_values(|e: (Seq<char>, nat)| dec(e.1) + " "@ + e.0).push(dec(tv[i as int].1) + " "@ + tv[i as int].0));
            i = i + 1;
        }
        assert(tv.take(tv.len() as int) =~= tv);
        let mut s = String::new();
        push_str(&mut s, "Types:       ");
        push_joined(&mut s, &parts, ", ");
        push_line(lines, s);
    }
    assert(views(lines@) =~= views(old(lines)@) + types_part(tally_of(plural_keys(doc.objects@))));
}

fn push_streams_line(lines: &mut Vec<String>, st: &StreamStats, Ghost(count): Ghost<nat>, Ghost(raw): Ghost<nat>, Ghost(decoded): Ghost<Option<nat>>)
    requires
        st.count == count,
        st.total_bytes == raw,
        match decoded {
            Some(d) => st.total_decoded_bytes == Some(d as u128) && d <= u128::MAX,
            None => st.total_decoded_bytes is None,
        },
    ensures
        views(final(lines)@) == views(old(lines)@) + seq![Seq::empty(), streams_line(count, raw, decoded)],
{
    push_line(lines, String::new());
    let mut sl = String::new();
    push_str(&mut sl, "Streams:     ");
    push_dec(&mut sl, st.count as u64);
    push_str(&mut sl, " (");
    push_dec_u128(&mut sl, st.total_bytes);
    match st.total_decoded_bytes {
        Some(dd) => {
            if dd != st.total_bytes {
                push_str(&mut sl, " bytes raw, ");
                push_dec_u128(&mut sl, dd);
                push_str(&mut sl, " decoded)");
            } else {
                push_str(&mut sl, " bytes)");
            }
        },
        None => {
            push_str(&mut sl, " bytes)");
        },
    }
    push_line(lines, sl);
    assert(views(lines@) =~= views(old(lines)@) + seq![Seq::empty(), streams_line(count, raw, decoded)]);
}

fn push_filters_line(lines: &mut Vec<String>, filter_counts: &Vec<(String, usize)>)
    ensures
        views(final(lines)@) == views(old(lines)@) + filters_part(tally_views(filter_counts@)),
{
    if filter_counts.len() > 0 {
        let sorted = sort_by_count(filter_counts);
        let mut parts: Vec<String> = Vec::new();
        let ghost tv = tally_views(sorted@);
        let mut i: usize = 0;
        while i < sorted.len()
            invariant
                i <= sorted@.len(),
                tv == tally_views(sorted@),
                views(parts@) == tv.take(i as int).map_values(|e: (Seq<char>, nat)| e.0 + " \u{00d7}"@ + dec(e.1)),
            decreases sorted.len() - i,
        {
            let mut s = sorted[i].0.clone();
            push_str(&mut s, " \u{00d7}");
            push_dec(&mut s, sorted[i].1 as u64);
            push_line(&mut parts, s);
            assert(tv.take(i + 1).map_values(|e: (Seq<char>, nat)| e.0 + " \u{00d7}"@ + dec(e.1)) =~= tv.take(
                i as int,
            ).map_values(|e: (Seq<char>, nat)| e.0 + " \u{00d7}"@ + dec(e.1)).push(
                tv[i as int].0 + " \u{00d7}"@ + dec(tv[i as int].1),
            ));
            i = i + 1;
        }
        assert(tv.take(tv.len() as int) =~= tv);
        let mut s = String::new();
        push_str(&mut s, "  Filters:   ");
        push_joined(&mut s, &parts, ", ");
        push_line(lines, s);
    }
    assert(views(lines@) =~= views(old(lines)@) + filters_part(tally_views(filter_counts@)));
}

fn push_largest_line(lines: &mut Vec<String>, st: &StreamStats)
    ensures
        views(final(lines)@) == views(old(lines)@) + largest_part(largest_views(st.largest@), st.count as nat),
{
    if st.largest.len() > 0 && st.count > 1 {
        let mut parts: Vec<String> = Vec::new();
        let ghost lv = largest_views(st.largest@);
        let mut i: usize = 0;
        while i < st.largest.len()
            invariant
                i <= st.largest@.len(),
                lv == largest_views(st.largest@),
                views(parts@) == lv.take(i as int).map_values(
                    |e: (u32, nat)| "#"@ + dec(e.0 as nat) + " ("@ + dec(e.1) + " B)"@,
                ),
            decreases st.largest.len() - i,
        {
            let mut s = String::new();
            push_str(&mut s, "#");
            push_dec(&mut s, st.largest[i].0 as u64);
            push_str(&mut s, " (");
            push_dec(&mut s, st.largest[i].1 as u64);
            push_str(&mut s, " B)");
            push_line(&mut parts, s);
            assert(lv.take(i + 1).map_values(|e: (u32, nat)| "#"@ + dec(e.0 as nat) + " ("@ + dec(e.1) + " B)"@)
                =~= lv.take(i as int).map_values(
                |e: (u32, nat)| "#"@ + dec(e.0 as nat) + " ("@ + dec(e.1) + " B)"@,
            ).push("#"@ + dec(lv[i as int].0 as nat) + " ("@ + dec(lv[i as int].1) + " B)"@));
            i = i + 1;
        }
        assert(lv.take(lv.len() as int) =~= lv);
        let mut s = String::new();
        push_str(&mut s, "  Largest:   ");
        push_joined(&mut s, &parts, ", ");
        push_line(lines, s);
    }
    assert(views(lines@) =~= views(old(lines)@) + largest_part(largest_views(st.largest@), st.count as nat));
}

fn push_stream_lines(lines: &mut Vec<String>, doc: &PdfDoc, decode: bool)
    ensures
        views(final(lines)@) == views(old(lines)@) + stream_part(*doc, decode),
{
    let ghost l0 = views(lines@);
    let st = collect_stream_stats(doc, decode);
    let ghost objs = doc.objects@;
    let ghost n = objs.len() as int;
    let ghost dec_opt: Option<nat> = if decode {
        Some(decoded_total(objs, n))
    } else {
        None
    };
    push_streams_line(lines, &st, Ghost(stream_sizes(objs, n).len()), Ghost(raw_total(objs, n)), Ghost(dec_opt));
    push_filters_line(lines, &st.filter_counts);
    push_largest_line(lines, &st);
}

fn push_head_lines(lines: &mut Vec<String>, doc: &PdfDoc, version: &str, page_count: usize, encrypted: bool)
    requires
        objects_sorted(doc.objects@),
    ensures
        views(final(lines)@) == views(old(lines)@) + overview_head(*doc, version@, page_count as nat, encrypted),
{
    let mut a = String::new();
    push_str(&mut a, "PDF Version: ");
    push_str(&mut a, version);
    push_line(lines, a);
    let mut b = String::new();
    push_str(&mut b, "Objects:     ");
    push_dec(&mut b, doc.objects.len() as u64);
    push_line(lines, b);
    let mut c = String::new();
    push_str(&mut c, "Pages:       ");
    push_dec(&mut c, page_count as u64);
    push_line(lines, c);
    let mut e = String::new();
    push_str(&mut e, "Encrypted:   ");
    push_str(&mut e, if encrypted { "yes" } else { "no" });
    push_line(lines, e);
    let ghost l1 = views(lines@);
    let (info, catalog) = metadata_info(doc);
    push_meta_lines(lines, &info);
    push_meta_lines(lines, &catalog);
    push_line(lines, String::new());
    assert(views(lines@) =~= views(old(lines)@) + overview_head(*doc, version@, page_count as nat, encrypted));
}

/// The overview of a document: version, counts, encryption, metadata,
/// validation, object kinds, stream figures and the features found
/// (given by the caller), line by line; `pages` lists its pages in order.
#[verifier::rlimit(50)]
pub fn print_overview(
    doc: &PdfDoc,
    version: &str,
    pages: &Vec<ObjRef>,
    encrypted: bool,
    decode: bool,
    features: &Vec<String>,
) -> (r: Vec<String>)
    requires
        objects_sorted(doc.objects@),
    ensures
        views(r@) == overview_lines(*doc, version@, pages@, encrypted, decode, views(features@)),
{
    let mut lines: Vec<String> = Vec::new();
    push_head_lines(&mut lines, doc, version, pages.len(), encrypted);
    let ghost l2 = views(lines@);
    let report = validate_pdf(doc, pages);
    validation_lines_for(&mut lines, &report, Ghost(all_issues(*doc, pages@)));
    let ghost l3 = views(lines@);
    push_types_line(&mut lines, doc);
    push_stream_lines(&mut lines, doc, decode);
    if features.len() > 0 {
        let mut s = String::new();
        push_str(&mut s, "Features:    ");
        push_joined(&mut s, features, ", ");
        push_line(&mut lines, s);
    }
    push_line(&mut lines, String::new());
    push_line(&mut lines, text_line("Tip: Use --json for machine-readable output."));
    assert(views(lines@) =~= overview_lines(*doc, version@, pages@, encrypted, decode, views(features@)));
    lines
}

// ── The object list ──────────────────────────────────────────────────

/// A row of the object list: number and generation right-aligned, kind and
/// `/Type` left-aligned in their columns, then the detail.
pub open spec fn list_row(r: ObjRef, v: PdfValue) -> Seq<char> {
    "  "@ + pad_left(dec(r.num as nat), 4) + "  "@ + pad_left(dec(r.gen as nat), 3) + "  "@ + pad_right(kind_name(v), 13)
        + " "@ + pad_right(type_label(v), 14) + " "@ + detail_of(v)
}

/// The object list: the version and the number of objects, a blank line,
/// the column headings, then a row per object in id order.
pub open spec fn list_lines(d: PdfDoc, version: Seq<char>) -> Seq<Seq<char>> {
    seq![
        "PDF "@ + version + "  |  "@ + dec(d.objects@.len()) + " objects"@,
        Seq::empty(),
        "  Obj#  Gen  Kind          /Type          Detail"@,
    ] + d.objects@.map_values(|e: (ObjRef, PdfValue)| list_row(e.0, e.1))
}

/// Every object on a line of its own (see `list_lines`).
pub fn print_list(doc: &PdfDoc, version: &str) -> (r: Vec<String>)
    ensures
        views(r@) == list_lines(*doc, version@),
{
    let mut out: Vec<String> = Vec::new();
    let mut h = String::new();
    push_str(&mut h, "PDF ");
    push_str(&mut h, version);
    push_str(&mut h, "  |  ");
    push_dec(&mut h, doc.objects.len() as u64);
    push_str(&mut h, " objects");
    push_line(&mut out, h);
    push_line(&mut out, String::new());
    let mut c = String::new();
    push_str(&mut c, "  Obj#  Gen  Kind          /Type          Detail");
    push_line(&mut out, c);
    let ghost head = views(out@);
    let objs = &doc.objects;
    let mut k: usize = 0;
    while k < objs.len()
        invariant
            objs@ == doc.objects@,
            k <= objs@.len(),
            views(out@) == head + objs@.take(k as int).map_values(|e: (ObjRef, PdfValue)| list_row(e.0, e.1)),
        decreases objs.len() - k,
    {
        let (id, v) = (objs[k].0, &objs[k].1);
        let mut row = String::new();
        push_str(&mut row, "  ");
        push_padded_dec(&mut row, id.num as u64, 4);
        push_str(&mut row, "  ");
        push_padded_dec(&mut row, id.gen as u64, 3);
        push_str(&mut row, "  ");
        push_padded_right(&mut row, enum_variant(v), 13);
        push_str(&mut row, " ");
        let tl = object_type_label(v);
        push_padded_right(&mut row, tl.as_str(), 14);
        push_str(&mut row, " ");
        let d = summary_detail(v);
        push_str(&mut row, d.as_str());
        let ghost before = views(out@);
        push_line(&mut out, row);
        assert(objs@.take(k + 1).map_values(|e: (ObjRef, PdfValue)| list_row(e.0, e.1)) =~= objs@.take(
            k as int,
        ).map_values(|e: (ObjRef, PdfValue)| list_row(e.0, e.1)).push(list_row(id, *v)));
        k = k + 1;
    }
    assert(objs@.take(k as int) =~= objs@);
    proof {
        reveal_strlit("  Obj#  Gen  Kind          /Type          Detail");
    }
    assert(views(out@) =~= list_lines(*doc, version@));
    out
}

} // verus!
