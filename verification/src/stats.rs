//! Document statistics: objects by kind, stream sizes raw and decoded,
//! filters in use, and the largest streams.
use vstd::prelude::*;
use crate::counts::{tally_keys, tally_count, tally_of, tally_views, Tally};
use crate::model::{dict_filter_names, pdf_stream_of, ObjRef, PdfDoc, PdfValue};
use crate::refs::{enum_variant, kind_name};
use crate::stream::{cow_bytes, decode_stream, get_filter_names, lossy_string, run_filters, utf8_lossy};
use crate::textbuf::{dec, pad_left, pad_right, push_dec, push_dec_u128, push_line, push_padded_dec, push_padded_right, push_str, views};

verus! {

/// A stream object's dictionary and content.
pub open spec fn stream_of(v: PdfValue) -> Option<(Seq<(Vec<u8>, PdfValue)>, Seq<u8>)> {
    match v {
        PdfValue::Stream { dict, content } => Some((dict@, content@)),
        _ => None,
    }
}

/// The kinds of the objects, in order.
pub open spec fn kind_keys(objs: Seq<(ObjRef, PdfValue)>) -> Seq<Seq<char>> {
    objs.map_values(|e: (ObjRef, PdfValue)| kind_name(e.1))
}

/// The raw sizes of the streams among the first `n` objects.
pub open spec fn raw_total(objs: Seq<(ObjRef, PdfValue)>, n: int) -> nat
    decreases n,
{
    if n <= 0 {
        0
    } else {
        raw_total(objs, n - 1) + match stream_of(objs[n - 1].1) {
            Some(s) => s.1.len(),
            None => 0,
        }
    }
}

/// The decoded sizes of the streams among the first `n` objects.
pub open spec fn decoded_total(objs: Seq<(ObjRef, PdfValue)>, n: int) -> nat
    decreases n,
{
    if n <= 0 {
        0
    } else {
        decoded_total(objs, n - 1) + match stream_of(objs[n - 1].1) {
            Some(s) => run_filters(s.1, dict_filter_names(s.0)).0.len(),
            None => 0,
        }
    }
}

/// The filter names of the streams among the first `n` objects, each
/// stream's in order, as text.
pub open spec fn filter_keys(objs: Seq<(ObjRef, PdfValue)>, n: int) -> Seq<Seq<char>>
    decreases n,
{
    if n <= 0 {
        Seq::empty()
    } else {
        filter_keys(objs, n - 1) + match stream_of(objs[n - 1].1) {
            Some(s) => dict_filter_names(s.0).map_values(|f: Seq<u8>| utf8_lossy(f)),
            None => Seq::empty(),
        }
    }
}

/// The streams among the first `n` objects with their raw sizes.
pub open spec fn stream_sizes(objs: Seq<(ObjRef, PdfValue)>, n: int) -> Seq<(ObjRef, nat)>
    decreases n,
{
    if n <= 0 {
        Seq::empty()
    } else {
        stream_sizes(objs, n - 1) + match stream_of(objs[n - 1].1) {
            Some(s) => seq![(objs[n - 1].0, s.1.len())],
            None => Seq::empty(),
        }
    }
}

/// Placing one more entry after every entry at least as large.
pub open spec fn insert_by_size(t: Seq<(ObjRef, nat)>, x: (ObjRef, nat)) -> Seq<(ObjRef, nat)>
    decreases t.len(),
{
    if t.len() == 0 {
        seq![x]
    } else if t[0].1 < x.1 {
        seq![x] + t
    } else {
        seq![t[0]] + insert_by_size(t.drop_first(), x)
    }
}

/// Entries from largest to smallest; equal sizes keep their order.
pub open spec fn by_size(s: Seq<(ObjRef, nat)>) -> Seq<(ObjRef, nat)>
    decreases s.len(),
{
    if s.len() == 0 {
        Seq::empty()
    } else {
        insert_by_size(by_size(s.drop_last()), s.last())
    }
}

/// The first `k` entries, or all of them.
pub open spec fn first_at_most(s: Seq<(ObjRef, nat)>, k: nat) -> Seq<(ObjRef, nat)> {
    if s.len() <= k {
        s
    } else {
        s.take(k as int)
    }
}

/// Counts and sizes gathered over a document.
pub struct PdfStats {
    pub page_count: usize,
    pub object_count: usize,
    /// Objects by kind, kinds in ascending order.
    pub type_counts: Vec<(String, usize)>,
    pub total_stream_bytes: u128,
    pub total_decoded_bytes: u128,
    /// Uses of each filter, names in ascending order.
    pub filter_counts: Vec<(String, usize)>,
    /// The ten largest streams (or fewer), largest first.
    pub largest_streams: Vec<(ObjRef, usize)>,
}

pub open spec fn size_views(s: Seq<(ObjRef, usize)>) -> Seq<(ObjRef, nat)> {
    s.map_values(|e: (ObjRef, usize)| (e.0, e.1 as nat))
}

proof fn lemma_insert_by_size_at(t: Seq<(ObjRef, nat)>, x: (ObjRef, nat), p: int)
    requires
        0 <= p <= t.len(),
        forall|i: int| 0 <= i < p ==> !((#[trigger] t[i]).1 < x.1),
    ensures
        insert_by_size(t, x) == t.take(p) + insert_by_size(t.skip(p), x),
    decreases p,
{
    if p > 0 {
        let rest = t.drop_first();
        assert forall|i: int| 0 <= i < p - 1 implies !((#[trigger] rest[i]).1 < x.1) by {
            assert(rest[i] == t[i + 1]);
        }
        lemma_insert_by_size_at(rest, x, p - 1);
        assert(rest.skip(p - 1) =~= t.skip(p));
        assert(t.take(p) =~= seq![t[0]] + rest.take(p - 1));
    } else {
        assert(t.skip(0) =~= t);
        assert(t.take(0) + insert_by_size(t.skip(0), x) =~= insert_by_size(t, x));
    }
}

fn insert_size(v: &mut Vec<(ObjRef, usize)>, id: ObjRef, size: usize)
    ensures
        size_views(final(v)@) == insert_by_size(size_views(old(v)@), (id, size as nat)),
{
    let ghost t = size_views(v@);
    let mut p: usize = 0;
    while p < v.len()
        invariant
            p <= v@.len(),
            t == size_views(v@),
            forall|i: int| 0 <= i < p ==> !((#[trigger] t[i]).1 < size),
        ensures
            p <= v@.len(),
            t == size_views(v@),
            forall|i: int| 0 <= i < p ==> !((#[trigger] t[i]).1 < size),
            p < v@.len() ==> t[p as int].1 < size,
        decreases v.len() - p,
    {
        if v[p].1 < size {
            break;
        }
        p = p + 1;
    }
    proof {
        lemma_insert_by_size_at(t, (id, size as nat), p as int);
        let rest = t.skip(p as int);
        if p < v@.len() {
            assert(rest[0] == t[p as int]);
        }
        assert(insert_by_size(rest, (id, size as nat)) == seq![(id, size as nat)] + rest);
    }
    v.insert(p, (id, size));
    assert(size_views(v@) =~= t.take(p as int) + insert_by_size(t.skip(p as int), (id, size as nat)));
}

/// Gathers the statistics of a document with `page_count` pages.
pub fn collect_stats(doc: &PdfDoc, page_count: usize) -> (r: PdfStats)
    ensures
        r.page_count == page_count,
        r.object_count == doc.objects@.len(),
        tally_views(r.type_counts@) == tally_of(kind_keys(doc.objects@)),
        r.total_stream_bytes == raw_total(doc.objects@, doc.objects@.len() as int),
        r.total_decoded_bytes == decoded_total(doc.objects@, doc.objects@.len() as int),
        tally_views(r.filter_counts@) == tally_of(filter_keys(doc.objects@, doc.objects@.len() as int)),
        size_views(r.largest_streams@) == first_at_most(
            by_size(stream_sizes(doc.objects@, doc.objects@.len() as int)),
            10,
        ),
{
    let objs = &doc.objects;
    let mut kinds: Vec<String> = Vec::new();
    let mut filters: Vec<String> = Vec::new();
    let mut raw: u128 = 0;
    let mut decoded: u128 = 0;
    let mut sizes: Vec<(ObjRef, usize)> = Vec::new();
    let mut k: usize = 0;
    assert(kinds@.map_values(|s: String| s@) =~= kind_keys(objs@).take(0));
    assert(filters@.map_values(|s: String| s@) =~= filter_keys(objs@, 0));
    assert(size_views(sizes@) =~= by_size(stream_sizes(objs@, 0)));
    while k < objs.len()
        invariant
            objs@ == doc.objects@,
            k <= objs@.len(),
            kinds@.map_values(|s: String| s@) == kind_keys(objs@).take(k as int),
            filters@.map_values(|s: String| s@) == filter_keys(objs@, k as int),
            raw == raw_total(objs@, k as int),
            decoded == decoded_total(objs@, k as int),
            raw <= k * (usize::MAX as int),
            decoded <= k * (usize::MAX as int),
            size_views(sizes@) == by_size(stream_sizes(objs@, k as int)),
        decreases objs.len() - k,
    {
        let ghost kv = kinds@.map_values(|s: String| s@);
        let mut kind = String::new();
        push_str(&mut kind, enum_variant(&objs[k].1));
        assert(kind@ == kind_name(objs@[k as int].1));
        kinds.push(kind);
        assert(kinds@.map_values(|s: String| s@) =~= kv.push(kind_name(objs@[k as int].1)));
        assert(kind_keys(objs@)[k as int] == kind_name(objs@[k as int].1));
        assert(kinds@.map_values(|s: String| s@) =~= kind_keys(objs@).take(k + 1));
        let ghost fk = filters@.map_values(|s: String| s@);
        if let PdfValue::Stream { dict, content } = &objs[k].1 {
            let len = content.len();
            assert(raw + len <= (k + 1) * (usize::MAX as int)) by (nonlinear_arith)
                requires
                    raw <= k * (usize::MAX as int),
                    len <= usize::MAX,
            ;
            assert((k + 1) * (usize::MAX as int) <= u128::MAX) by (nonlinear_arith)
                requires
                    k < usize::MAX,
                    usize::MAX <= 0xffff_ffff_ffff_ffff,
            ;
            raw = raw + len as u128;
            let st = pdf_stream_of(dict, content);
            let (out, _) = decode_stream(&st);
            let dlen = cow_bytes(&out).len();
            assert(decoded + dlen <= (k + 1) * (usize::MAX as int)) by (nonlinear_arith)
                requires
                    decoded <= k * (usize::MAX as int),
                    dlen <= usize::MAX,
            ;
            decoded = decoded + dlen as u128;
            let names = get_filter_names(&st);
            let ghost nv = names@.map_values(|n: Vec<u8>| n@);
            let mut j: usize = 0;
            while j < names.len()
                invariant
                    j <= names@.len(),
                    nv == names@.map_values(|n: Vec<u8>| n@),
                    filters@.map_values(|s: String| s@) == fk + nv.take(j as int).map_values(
                        |f: Seq<u8>| utf8_lossy(f),
                    ),
                decreases names.len() - j,
            {
                let t = lossy_string(names[j].as_slice());
                assert(nv[j as int] == names@[j as int]@);
                let ghost before = filters@.map_values(|s: String| s@);
                filters.push(t);
                assert(filters@.map_values(|s: String| s@) =~= before.push(utf8_lossy(nv[j as int])));
                assert(nv.take(j + 1).map_values(|f: Seq<u8>| utf8_lossy(f)) =~= nv.take(j as int).map_values(
                    |f: Seq<u8>| utf8_lossy(f),
                ).push(utf8_lossy(nv[j as int])));
                assert(filters@.map_values(|s: String| s@) =~= fk + nv.take(j + 1).map_values(
                    |f: Seq<u8>| utf8_lossy(f),
                ));
                j = j + 1;
            }
            assert(nv.take(nv.len() as int) =~= nv);
            assert(filters@.map_values(|s: String| s@) =~= filter_keys(objs@, k + 1));
            insert_size(&mut sizes, objs[k].0, len);
            assert(stream_sizes(objs@, k + 1).drop_last() =~= stream_sizes(objs@, k as int));
        } else {
            assert(raw <= (k + 1) * (usize::MAX as int)) by (nonlinear_arith)
                requires
                    raw <= k * (usize::MAX as int),
            ;
            assert(decoded <= (k + 1) * (usize::MAX as int)) by (nonlinear_arith)
                requires
                    decoded <= k * (usize::MAX as int),
            ;
            assert(filters@.map_values(|s: String| s@) =~= filter_keys(objs@, k + 1));
            assert(stream_sizes(objs@, k + 1) =~= stream_sizes(objs@, k as int));
        }
        k = k + 1;
    }
    assert(kind_keys(objs@).take(objs@.len() as int) =~= kind_keys(objs@));
    let type_counts = tally_keys(&kinds);
    let filter_counts = tally_keys(&filters);
    let ghost all = size_views(sizes@);
    sizes.truncate(10);
    assert(size_views(sizes@) =~= first_at_most(all, 10));
    PdfStats {
        page_count,
        object_count: objs.len(),
        type_counts,
        total_stream_bytes: raw,
        total_decoded_bytes: decoded,
        filter_counts,
        largest_streams: sizes,
    }
}

/// The count of the first entry with key `k`, or zero.
pub open spec fn tally_get(t: Tally, k: Seq<char>) -> nat
    decreases t.len(),
{
    if t.len() == 0 {
        0
    } else if t[0].0 == k {
        t[0].1
    } else {
        tally_get(t.drop_first(), k)
    }
}

pub open spec fn count_line(indent: Seq<char>, width: nat, e: (Seq<char>, nat)) -> Seq<char> {
    indent + pad_right(e.0, width) + " "@ + dec(e.1)
}

pub open spec fn largest_line(e: (ObjRef, nat)) -> Seq<char> {
    "  Object "@ + pad_left(dec(e.0.num as nat), 4) + "  "@ + dec(e.1) + " bytes"@
}

/// The text report of the statistics.
pub open spec fn stats_lines(
    types: Tally,
    raw: nat,
    decoded: nat,
    filters: Tally,
    largest: Seq<(ObjRef, nat)>,
) -> Seq<Seq<char>> {
    seq!["--- Objects by Type ---"@] + types.map_values(|e: (Seq<char>, nat)| count_line("  "@, 14, e)) + seq![
        Seq::empty(),
        "--- Stream Statistics ---"@,
        "  Streams:        "@ + dec(tally_get(types, "Stream"@)),
        "  Total raw:      "@ + dec(raw) + " bytes"@,
        "  Total decoded:  "@ + dec(decoded) + " bytes"@,
    ] + (if filters.len() == 0 {
        Seq::empty()
    } else {
        seq!["  Filters:"@] + filters.map_values(|e: (Seq<char>, nat)| count_line("    "@, 20, e))
    }) + seq![Seq::empty()] + (if largest.len() == 0 {
        Seq::empty()
    } else {
        seq!["--- Largest Streams (top "@ + dec(largest.len()) + ") ---"@] + largest.map_values(
            |e: (ObjRef, nat)| largest_line(e),
        )
    })
}

fn lookup_count(t: &Vec<(String, usize)>, k: &str) -> (r: usize)
    ensures
        r == tally_get(tally_views(t@), k@),
{
    let ghost tv = tally_views(t@);
    let mut i: usize = 0;
    assert(tv.skip(0) =~= tv);
    while i < t.len()
        invariant
            i <= t@.len(),
            tv == tally_views(t@),
            tally_get(tv, k@) == tally_get(tv.skip(i as int), k@),
        decreases t.len() - i,
    {
        assert(tv.skip(i as int)[0] == tv[i as int]);
        assert(tv.skip(i as int).drop_first() =~= tv.skip(i + 1));
        if crate::textbuf::str_eq(t[i].0.as_str(), k) {
            return t[i].1;
        }
        i = i + 1;
    }
    0
}

fn push_count_lines(lines: &mut Vec<String>, t: &Vec<(String, usize)>, indent: &str, width: usize)
    ensures
        views(final(lines)@) == views(old(lines)@) + tally_views(t@).map_values(
            |e: (Seq<char>, nat)| count_line(indent@, width as nat, e),
        ),
{
    let ghost tv = tally_views(t@);
    let ghost f = |e: (Seq<char>, nat)| count_line(indent@, width as nat, e);
    let mut i: usize = 0;
    assert(views(lines@) =~= views(old(lines)@) + tv.take(0).map_values(f));
    while i < t.len()
        invariant
            i <= t@.len(),
            tv == tally_views(t@),
            f == (|e: (Seq<char>, nat)| count_line(indent@, width as nat, e)),
            views(lines@) == views(old(lines)@) + tv.take(i as int).map_values(f),
        decreases t.len() - i,
    {
        let mut s = String::new();
        push_str(&mut s, indent);
        push_padded_right(&mut s, t[i].0.as_str(), width);
        push_str(&mut s, " ");
        push_dec(&mut s, t[i].1 as u64);
        push_line(lines, s);
        assert(tv.take(i + 1).map_values(f) =~= tv.take(i as int).map_values(f).push(f(tv[i as int])));
        i = i + 1;
    }
    assert(tv.take(tv.len() as int) =~= tv);
}

/// The text report of document statistics, line by line.
pub fn print_stats(stats: &PdfStats) -> (r: Vec<String>)
    ensures
        views(r@) == stats_lines(
            tally_views(stats.type_counts@),
            stats.total_stream_bytes as nat,
            stats.total_decoded_bytes as nat,
            tally_views(stats.filter_counts@),
            size_views(stats.largest_streams@),
        ),
{
    let mut lines: Vec<String> = Vec::new();
    let mut h = String::new();
    push_str(&mut h, "--- Objects by Type ---");
    push_line(&mut lines, h);
    push_count_lines(&mut lines, &stats.type_counts, "  ", 14);
    push_line(&mut lines, String::new());
    let mut a = String::new();
    push_str(&mut a, "--- Stream Statistics ---");
    push_line(&mut lines, a);
    let mut b = String::new();
    push_str(&mut b, "  Streams:        ");
    push_dec(&mut b, lookup_count(&stats.type_counts, "Stream") as u64);
    push_line(&mut lines, b);
    let mut c = String::new();
    push_str(&mut c, "  Total raw:      ");
    push_dec_u128(&mut c, stats.total_stream_bytes);
    push_str(&mut c, " bytes");
    push_line(&mut lines, c);
    let mut d = String::new();
    push_str(&mut d, "  Total decoded:  ");
    push_dec_u128(&mut d, stats.total_decoded_bytes);
    push_str(&mut d, " bytes");
    push_line(&mut lines, d);
    if stats.filter_counts.len() > 0 {
        let mut f = String::new();
        push_str(&mut f, "  Filters:");
        push_line(&mut lines, f);
        push_count_lines(&mut lines, &stats.filter_counts, "    ", 20);
    }
    push_line(&mut lines, String::new());
    let ghost mid = views(lines@);
    let lg = &stats.largest_streams;
    if lg.len() > 0 {
        let mut t = String::new();
        push_str(&mut t, "--- Largest Streams (top ");
        push_dec(&mut t, lg.len() as u64);
        push_str(&mut t, ") ---");
        push_line(&mut lines, t);
        let ghost sv = size_views(lg@);
        let ghost base = views(lines@);
        let ghost f = |e: (ObjRef, nat)| largest_line(e);
        let mut i: usize = 0;
        assert(views(lines@) =~= base + sv.take(0).map_values(f));
        while i < lg.len()
            invariant
                i <= lg@.len(),
                sv == size_views(lg@),
                f == (|e: (ObjRef, nat)| largest_line(e)),
                views(lines@) == base + sv.take(i as int).map_values(f),
            decreases lg.len() - i,
        {
            let mut s = String::new();
            push_str(&mut s, "  Object ");
            push_padded_dec(&mut s, lg[i].0.num as u64, 4);
            push_str(&mut s, "  ");
            push_dec(&mut s, lg[i].1 as u64);
            push_str(&mut s, " bytes");
            push_line(&mut lines, s);
            assert(sv.take(i + 1).map_values(f) =~= sv.take(i as int).map_values(f).push(f(sv[i as int])));
            i = i + 1;
        }
        assert(sv.take(sv.len() as int) =~= sv);
    }
    assert(views(lines@) =~= stats_lines(
        tally_views(stats.type_counts@),
        stats.total_stream_bytes as nat,
        stats.total_decoded_bytes as nat,
        tally_views(stats.filter_counts@),
        size_views(stats.largest_streams@),
    ));
    lines
}

} // verus!
