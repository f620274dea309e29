//! Lenient recovery of stream bodies from raw file bytes.
//!
//! A reader that trusts a wrong `/Length` fails to find `endstream` and drops
//! the stream body. The functions here locate the true body between the
//! `stream` and `endstream` keywords of an object, given its file offset.
use vstd::prelude::*;
use crate::model::{entry_get, ObjRef, PdfDoc, PdfValue};
use crate::stream::is_ascii_ws;
use crate::textbuf::{dec, dec_int, push_dec, push_dec_i64, push_str};
use crate::validate::key;

verus! {

/// `needle` occurs in `hay` at position `i`.
pub open spec fn match_at(hay: Seq<u8>, needle: Seq<u8>, i: int) -> bool {
    0 <= i && i + needle.len() <= hay.len() && hay.subrange(i, i + needle.len()) == needle
}

/// `i` is the first position where `needle` occurs in `hay`.
pub open spec fn first_match_at(hay: Seq<u8>, needle: Seq<u8>, i: int) -> bool {
    match_at(hay, needle, i) && forall|j: int| 0 <= j < i ==> !match_at(hay, needle, j)
}

/// The first position of `needle` in `hay`, if it occurs.
pub open spec fn first_match(hay: Seq<u8>, needle: Seq<u8>) -> Option<int> {
    if exists|i: int| first_match_at(hay, needle, i) {
        Some(choose|i: int| first_match_at(hay, needle, i))
    } else {
        None
    }
}

/// What `find_subslice` gives: nothing for an empty needle or one longer than
/// the haystack, else the first position of the needle.
pub open spec fn spec_find_subslice(hay: Seq<u8>, needle: Seq<u8>) -> Option<int> {
    if needle.len() == 0 || hay.len() < needle.len() {
        None
    } else {
        first_match(hay, needle)
    }
}

proof fn lemma_least_match(hay: Seq<u8>, needle: Seq<u8>, j: int)
    requires
        match_at(hay, needle, j),
    ensures
        exists|i: int| first_match_at(hay, needle, i),
    decreases j,
{
    if exists|m: int| 0 <= m < j && match_at(hay, needle, m) {
        let m = choose|m: int| 0 <= m < j && match_at(hay, needle, m);
        lemma_least_match(hay, needle, m);
    } else {
        assert(first_match_at(hay, needle, j));
    }
}

pub proof fn lemma_first_match(hay: Seq<u8>, needle: Seq<u8>)
    ensures
        match first_match(hay, needle) {
            Some(i) => first_match_at(hay, needle, i),
            None => forall|j: int| !match_at(hay, needle, j),
        },
{
    if !(exists|i: int| first_match_at(hay, needle, i)) {
        assert forall|j: int| !match_at(hay, needle, j) by {
            if match_at(hay, needle, j) {
                lemma_least_match(hay, needle, j);
            }
        }
    }
}

/// Whether `needle` occurs in `hay` at position `i`.
fn matches_at(hay: &[u8], needle: &[u8], i: usize) -> (r: bool)
    requires
        i + needle@.len() <= hay@.len(),
    ensures
        r == match_at(hay@, needle@, i as int),
{
    let mut k: usize = 0;
    while k < needle.len()
        invariant
            k <= needle@.len(),
            i + needle.len() <= hay.len(),
            forall|m: int| 0 <= m < k ==> hay@[i + m] == needle@[m],
        decreases needle.len() - k,
    {
        if hay[i + k] != needle[k] {
            assert(hay@.subrange(i as int, i + needle@.len())[k as int] != needle@[k as int]);
            return false;
        }
        k = k + 1;
    }
    assert(hay@.subrange(i as int, i + needle@.len()) =~= needle@);
    true
}

/// First index of `needle` within `hay[lo..hi]` (relative to `lo`).
pub(crate) fn find_in(hay: &[u8], lo: usize, hi: usize, needle: &[u8]) -> (r: Option<usize>)
    requires
        lo <= hi <= hay@.len(),
    ensures
        match r {
            Some(i) => spec_find_subslice(hay@.subrange(lo as int, hi as int), needle@) == Some(
                i as int,
            ),
            None => spec_find_subslice(hay@.subrange(lo as int, hi as int), needle@) is None,
        },
{
    let ghost sub = hay@.subrange(lo as int, hi as int);
    if needle.len() == 0 || hi - lo < needle.len() {
        return None;
    }
    let last = hi - lo - needle.len();
    let mut i: usize = 0;
    while i <= last
        invariant
            lo <= hi <= hay@.len(),
            sub == hay@.subrange(lo as int, hi as int),
            last + needle.len() == hi - lo,
            needle.len() >= 1,
            i <= last + 1,
            forall|j: int| 0 <= j < i ==> !match_at(sub, needle@, j),
        decreases last + 1 - i,
    {
        let m = matches_at(hay, needle, lo + i);
        assert(sub.subrange(i as int, i + needle@.len()) =~= hay@.subrange(
            lo + i,
            lo + i + needle@.len(),
        ));
        if m {
            proof {
                lemma_first_match(sub, needle@);
                let k = first_match(sub, needle@)->0;
                assert(first_match_at(sub, needle@, i as int));
                assert(k == i) by {
                    if k < i {
                        assert(!match_at(sub, needle@, k));
                    }
                    if k > i {
                        assert(match_at(sub, needle@, i as int));
                    }
                }
            }
            return Some(i);
        }
        i = i + 1;
    }
    proof {
        lemma_first_match(sub, needle@);
        if first_match(sub, needle@) is Some {
            let k = first_match(sub, needle@)->0;
            assert(match_at(sub, needle@, k));
        }
    }
    None
}

/// First index of `needle` within `haystack`, or `None`.
pub fn find_subslice(haystack: &[u8], needle: &[u8]) -> (r: Option<usize>)
    ensures
        match r {
            Some(i) => spec_find_subslice(haystack@, needle@) == Some(i as int),
            None => spec_find_subslice(haystack@, needle@) is None,
        },
{
    assert(haystack@.subrange(0, haystack@.len() as int) =~= haystack@);
    find_in(haystack, 0, haystack.len(), needle)
}

/// The bytes of `stream`.
pub open spec fn kw_stream() -> Seq<u8> {
    seq![115u8, 116, 114, 101, 97, 109]
}

/// The bytes of `endstream`.
pub open spec fn kw_endstream() -> Seq<u8> {
    seq![101u8, 110, 100, 115, 116, 114, 101, 97, 109]
}

/// The bytes of `endobj`.
pub open spec fn kw_endobj() -> Seq<u8> {
    seq![101u8, 110, 100, 111, 98, 106]
}

/// The bytes of `end`.
pub open spec fn kw_end() -> Seq<u8> {
    seq![101u8, 110, 100]
}

/// Where a body starts after a `stream` keyword found at `pos` in `head`,
/// when that keyword is a real stream marker: a standalone token (start, `>`
/// or white space before it, not the tail of `endstream`) followed by LF or
/// CRLF.
pub open spec fn marker_body_start(head: Seq<u8>, pos: int) -> Option<int> {
    let prev_ok = pos == 0 || head[pos - 1] == 0x3e || is_ascii_ws(head[pos - 1]);
    let not_endstream = !(pos >= 3 && head.subrange(pos - 3, pos) == kw_end());
    let b0 = pos + 6;
    let b = if b0 < head.len() && head[b0] == 0x0d {
        b0 + 1
    } else {
        b0
    };
    let has_lf = b < head.len() && head[b] == 0x0a;
    if prev_ok && not_endstream && has_lf {
        Some(b + 1)
    } else {
        None
    }
}

/// The start of the first stream body in `head` at or after `from`.
pub open spec fn body_start_from(head: Seq<u8>, from: int) -> Option<int>
    decreases head.len() - from,
    when 0 <= from <= head.len()
{
    match spec_find_subslice(head.skip(from), kw_stream()) {
        None => None,
        Some(k) => {
            let pos = from + k;
            match marker_body_start(head, pos) {
                Some(b) => Some(b),
                None => if pos + 6 <= head.len() && 0 <= k {
                    body_start_from(head, pos + 6)
                } else {
                    None
                },
            }
        },
    }
}

/// `end` moved back over the single EOL (LF, CRLF or CR) that precedes
/// `endstream`, never below `start`.
pub open spec fn strip_eol(region: Seq<u8>, start: int, end: int) -> int {
    if end > start && region[end - 1] == 0x0a {
        if end - 1 > start && region[end - 2] == 0x0d {
            end - 2
        } else {
            end - 1
        }
    } else if end > start && region[end - 1] == 0x0d {
        end - 1
    } else {
        end
    }
}

/// What `extract_stream_body` gives for the object at `offset` of `raw`.
pub open spec fn spec_extract_stream_body(raw: Seq<u8>, offset: int) -> Option<Seq<u8>> {
    if offset < 0 || offset >= raw.len() {
        None
    } else {
        let region = raw.skip(offset);
        let limit = match spec_find_subslice(region, kw_endobj()) {
            Some(l) => l,
            None => region.len() as int,
        };
        let head = region.take(limit);
        match body_start_from(head, 0) {
            None => None,
            Some(bs) => match spec_find_subslice(region.skip(bs), kw_endstream()) {
                None => None,
                Some(k) => Some(region.subrange(bs, strip_eol(region, bs, bs + k))),
            },
        }
    }
}

/// Start of the first stream body in `raw[lo..hi]` (relative to `lo`).
fn body_start(raw: &[u8], lo: usize, hi: usize) -> (r: Option<usize>)
    requires
        lo <= hi <= raw@.len(),
    ensures
        match r {
            Some(b) => body_start_from(raw@.subrange(lo as int, hi as int), 0) == Some(b as int) && b <= hi - lo,
            None => body_start_from(raw@.subrange(lo as int, hi as int), 0) is None,
        },
{
    let ghost head = raw@.subrange(lo as int, hi as int);
    let kw: Vec<u8> = vec![115, 116, 114, 101, 97, 109];
    assert(kw@ =~= kw_stream());
    let n = hi - lo;
    let mut from: usize = 0;
    while from <= n
        invariant
            lo <= hi <= raw@.len(),
            n == hi - lo,
            head == raw@.subrange(lo as int, hi as int),
            kw@ == kw_stream(),
            from <= n,
            body_start_from(head, 0) == body_start_from(head, from as int),
        decreases n - from,
    {
        assert(raw@.subrange(lo + from, hi as int) =~= head.skip(from as int));
        let k = match find_in(raw, lo + from, hi, kw.as_slice()) {
            None => {
                return None;
            },
            Some(k) => k,
        };
        let pos = from + k;
        proof {
            lemma_first_match(head.skip(from as int), kw_stream());
        }
        assert(pos + 6 <= n);
        let prev_ok = pos == 0 || raw[lo + pos - 1] == 0x3e || {
            let c = raw[lo + pos - 1];
            c == 0x20 || c == 0x09 || c == 0x0a || c == 0x0c || c == 0x0d
        };
        let not_endstream = !(pos >= 3 && raw[lo + pos - 3] == 101 && raw[lo + pos - 2] == 110
            && raw[lo + pos - 1] == 100);
        proof {
            if pos >= 3 {
                assert(head.subrange(pos - 3, pos as int) =~= seq![
                    raw@[lo + pos - 3],
                    raw@[lo + pos - 2],
                    raw@[lo + pos - 1],
                ]);
            }
            if pos > 0 {
                assert(head[pos - 1] == raw@[lo + pos - 1]);
            }
        }
        let mut b = pos + 6;
        if b < n && raw[lo + b] == 0x0d {
            b = b + 1;
        }
        let has_lf = b < n && raw[lo + b] == 0x0a;
        if prev_ok && not_endstream && has_lf {
            assert(marker_body_start(head, pos as int) == Some((b + 1) as int));
            return Some(b + 1);
        }
        assert(marker_body_start(head, pos as int) is None);
        from = pos + 6;
    }
    proof {
        assert(false);
    }
    None
}

/// `strip_eol` over the region of `raw` that starts at `offset`.
fn strip_eol_exec(raw: &[u8], offset: usize, start: usize, end: usize) -> (r: usize)
    requires
        start <= end,
        offset + end <= raw.len(),
    ensures
        r == strip_eol(raw@.skip(offset as int), start as int, end as int),
        start <= r <= end,
{
    let ghost region = raw@.skip(offset as int);
    if end > start {
        assert(region[end - 1] == raw@[offset + end - 1]);
    }
    if end - start > 1 {
        assert(region[end - 2] == raw@[offset + end - 2]);
    }
    if end > start && raw[offset + end - 1] == 0x0a {
        if end - 1 > start && raw[offset + end - 2] == 0x0d {
            end - 2
        } else {
            end - 1
        }
    } else if end > start && raw[offset + end - 1] == 0x0d {
        end - 1
    } else {
        end
    }
}

/// A copy of `raw[lo..hi]`.
fn copy_range(raw: &[u8], lo: usize, hi: usize) -> (r: Vec<u8>)
    requires
        lo <= hi <= raw@.len(),
    ensures
        r@ == raw@.subrange(lo as int, hi as int),
{
    let mut out: Vec<u8> = Vec::new();
    let mut i = lo;
    while i < hi
        invariant
            lo <= i <= hi <= raw@.len(),
            out@ == raw@.subrange(lo as int, i as int),
        decreases hi - i,
    {
        out.push(raw[i]);
        assert(raw@.subrange(lo as int, i + 1) =~= raw@.subrange(lo as int, i as int).push(raw@[i as int]));
        i = i + 1;
    }
    out
}

/// Extract a stream body from `raw` starting at an object's file `offset`.
/// Returns the bytes between the `stream` and `endstream` keywords (with the
/// single conventional EOL stripped on each side), or `None` when no stream is
/// present there. The opening-keyword search is bounded to this object (up to
/// its `endobj`) so a genuine dictionary cannot capture the next object's
/// stream.
pub fn extract_stream_body(raw: &[u8], offset: usize) -> (r: Option<Vec<u8>>)
    ensures
        match spec_extract_stream_body(raw@, offset as int) {
            Some(body) => r is Some && r->0@ == body,
            None => r is None,
        },
{
    if offset >= raw.len() {
        return None;
    }
    let len = raw.len();
    let ghost region = raw@.skip(offset as int);
    assert(raw@.subrange(offset as int, len as int) =~= region);
    let endobj: Vec<u8> = vec![101, 110, 100, 111, 98, 106];
    assert(endobj@ =~= kw_endobj());
    let limit = match find_in(raw, offset, len, endobj.as_slice()) {
        Some(l) => l,
        None => len - offset,
    };
    proof {
        lemma_first_match(region, kw_endobj());
    }
    assert(limit <= len - offset);
    assert(raw@.subrange(offset as int, offset + limit) =~= region.take(limit as int));
    let bs = match body_start(raw, offset, offset + limit) {
        None => {
            return None;
        },
        Some(bs) => bs,
    };
    let endstream: Vec<u8> = vec![101, 110, 100, 115, 116, 114, 101, 97, 109];
    assert(endstream@ =~= kw_endstream());
    assert(raw@.subrange(offset + bs, len as int) =~= region.skip(bs as int));
    let k = match find_in(raw, offset + bs, len, endstream.as_slice()) {
        None => {
            return None;
        },
        Some(k) => k,
    };
    proof {
        lemma_first_match(region.skip(bs as int), kw_endstream());
    }
    let body_end = strip_eol_exec(raw, offset, bs, bs + k);
    let out = copy_range(raw, offset + bs, offset + body_end);
    assert(out@ =~= region.subrange(bs as int, body_end as int));
    Some(out)
}

// ── Promoting dropped streams ────────────────────────────────────────

/// One stream recovered: the object, where it begins in the file, the
/// `/Length` it declared (when an integer) and its true body length.
pub struct StreamRecovery {
    pub id: ObjRef,
    pub offset: usize,
    pub declared_length: Option<i64>,
    pub recovered_length: usize,
}

/// A dictionary with a `/Length`: what a stream looks like once a reader
/// has dropped its body.
pub open spec fn is_candidate(v: PdfValue) -> bool {
    match v {
        PdfValue::Dictionary(es) => entry_get(es@, key("Length"@)) is Some,
        _ => false,
    }
}

/// Whether some object is a dictionary with a `/Length` (worth re-reading
/// the file for).
pub fn has_candidates(doc: &PdfDoc) -> (r: bool)
    ensures
        r == exists|k: int| 0 <= k < doc.objects@.len() && is_candidate(#[trigger] doc.objects@[k].1),
{
    let mut k: usize = 0;
    while k < doc.objects.len()
        invariant
            k <= doc.objects@.len(),
            forall|i: int| 0 <= i < k ==> !is_candidate(#[trigger] doc.objects@[i].1),
        decreases doc.objects.len() - k,
    {
        if let PdfValue::Dictionary(es) = &doc.objects[k].1 {
            if crate::model::find_entry(es, "Length".as_bytes()).is_some() {
                return true;
            }
        }
        k = k + 1;
    }
    false
}

/// The file offset the cross-reference table gives an object number (the
/// first entry for it), for objects stored at a plain offset.
pub open spec fn xref_offset(offsets: Seq<(u32, usize)>, num: u32) -> Option<usize>
    decreases offsets.len(),
{
    if offsets.len() == 0 {
        None
    } else if offsets[0].0 == num {
        Some(offsets[0].1)
    } else {
        xref_offset(offsets.drop_first(), num)
    }
}

/// For the object at position `k`: its offset and true body, when it is a
/// candidate stored at a plain offset where a stream body is found.
pub open spec fn recovery_at(objs: Seq<(ObjRef, PdfValue)>, offsets: Seq<(u32, usize)>, raw: Seq<u8>, k: int) -> Option<
    (usize, Seq<u8>),
> {
    if is_candidate(objs[k].1) {
        match xref_offset(offsets, objs[k].0.num) {
            Some(off) => match spec_extract_stream_body(raw, off as int) {
                Some(b) => Some((off, b)),
                None => None,
            },
            None => None,
        }
    } else {
        None
    }
}

/// The `/Length` a dictionary declares, when it is an integer.
pub open spec fn declared_of(es: Seq<(Vec<u8>, PdfValue)>) -> Option<i64> {
    match entry_get(es, key("Length"@)) {
        Some(PdfValue::Integer(n)) => Some(n),
        _ => None,
    }
}

/// The recoveries among the first `n` objects, in order: id, offset,
/// declared length, true length.
pub open spec fn recoveries_upto(objs: Seq<(ObjRef, PdfValue)>, offsets: Seq<(u32, usize)>, raw: Seq<u8>, n: int) -> Seq<
    (ObjRef, usize, Option<i64>, nat),
>
    decreases n,
{
    if n <= 0 {
        Seq::empty()
    } else {
        let prev = recoveries_upto(objs, offsets, raw, n - 1);
        match recovery_at(objs, offsets, raw, n - 1) {
            Some((off, b)) => match objs[n - 1].1 {
                PdfValue::Dictionary(es) => prev.push((objs[n - 1].0, off, declared_of(es@), b.len())),
                _ => prev,
            },
            None => prev,
        }
    }
}

pub open spec fn recovery_views(s: Seq<StreamRecovery>) -> Seq<(ObjRef, usize, Option<i64>, nat)> {
    s.map_values(|r: StreamRecovery| (r.id, r.offset, r.declared_length, r.recovered_length as nat))
}

/// The position of the first entry under `k`.
pub open spec fn first_key_index(es: Seq<(Vec<u8>, PdfValue)>, k: Seq<u8>) -> Option<int> {
    if exists|j: int| 0 <= j < es.len() && #[trigger] es[j].0@ == k {
        Some(choose|j: int| 0 <= j < es.len() && #[trigger] es[j].0@ == k && forall|i: int| 0 <= i < j ==> es[i].0@ != k)
    } else {
        None
    }
}

/// `v` is the stream made of the dictionary `old` and the body `b`: the
/// same entries, with `/Length` set to the body's length.
pub open spec fn promoted(old: Seq<(Vec<u8>, PdfValue)>, v: PdfValue, b: Seq<u8>) -> bool {
    match v {
        PdfValue::Stream { dict, content } => {
            &&& content@ == b
            &&& dict@.len() == old.len()
            &&& forall|i: int|
                0 <= i < old.len() ==> (#[trigger] dict@[i]).0 == old[i].0 && (if first_key_index(old, key("Length"@))
                    == Some(i) {
                    dict@[i].1 == PdfValue::Integer(b.len() as i64)
                } else {
                    dict@[i].1 == old[i].1
                })
        },
        _ => false,
    }
}

fn xref_offset_of(offsets: &Vec<(u32, usize)>, num: u32) -> (r: Option<usize>)
    ensures
        r == xref_offset(offsets@, num),
{
    let mut i: usize = 0;
    assert(offsets@.skip(0) =~= offsets@);
    while i < offsets.len()
        invariant
            i <= offsets@.len(),
            xref_offset(offsets@, num) == xref_offset(offsets@.skip(i as int), num),
        decreases offsets.len() - i,
    {
        assert(offsets@.skip(i as int)[0] == offsets@[i as int]);
        if offsets[i].0 == num {
            return Some(offsets[i].1);
        }
        assert(offsets@.skip(i as int).drop_first() =~= offsets@.skip(i + 1));
        i = i + 1;
    }
    None
}

fn length_index(es: &Vec<(Vec<u8>, PdfValue)>) -> (r: Option<usize>)
    ensures
        match r {
            Some(j) => first_key_index(es@, key("Length"@)) == Some(j as int) && j < es@.len(),
            None => first_key_index(es@, key("Length"@)) is None,
        },
{
    let mut j: usize = 0;
    while j < es.len()
        invariant
            j <= es@.len(),
            forall|i: int| 0 <= i < j ==> es@[i].0@ != key("Length"@),
        decreases es.len() - j,
    {
        if crate::model::bytes_eq(es[j].0.as_slice(), "Length".as_bytes()) {
            let ghost jj = j as int;
            assert(es@[jj].0@ == key("Length"@));
            let ghost c = choose|x: int| 0 <= x < es@.len() && #[trigger] es@[x].0@ == key("Length"@) && forall|i: int|
                0 <= i < x ==> es@[i].0@ != key("Length"@);
            assert(c == jj) by {
                if c < jj {
                    assert(es@[c].0@ != key("Length"@));
                } else if c > jj {
                    assert(es@[jj].0@ != key("Length"@));
                }
            }
            return Some(j);
        }
        j = j + 1;
    }
    None
}

/// Promotes each object that a reader dropped to a dictionary with a
/// `/Length` back to a stream, when the raw file bytes at its offset (from
/// `offsets`, the cross-reference entries at plain offsets) hold a stream
/// body: the stream keeps the dictionary's entries with `/Length` set to
/// the body's true length. Gives one record per object promoted, in id
/// order.
pub fn recover_malformed_streams(doc: &mut PdfDoc, raw: &[u8], offsets: &Vec<(u32, usize)>) -> (r: Vec<StreamRecovery>)
    ensures
        final(doc).trailer == old(doc).trailer,
        final(doc).objects@.len() == old(doc).objects@.len(),
        forall|k: int|
            0 <= k < old(doc).objects@.len() ==> (#[trigger] final(doc).objects@[k]).0 == old(doc).objects@[k].0 && match recovery_at(
                old(doc).objects@,
                offsets@,
                raw@,
                k,
            ) {
                None => final(doc).objects@[k].1 == old(doc).objects@[k].1,
                Some((off, b)) => match old(doc).objects@[k].1 {
                    PdfValue::Dictionary(es) => promoted(es@, final(doc).objects@[k].1, b),
                    _ => false,
                },
            },
        recovery_views(r@) == recoveries_upto(old(doc).objects@, offsets@, raw@, old(doc).objects@.len() as int),
{
    let ghost objs0 = doc.objects@;
    let mut out: Vec<StreamRecovery> = Vec::new();
    let mut k: usize = 0;
    assert(recovery_views(out@) =~= recoveries_upto(objs0, offsets@, raw@, 0));
    while k < doc.objects.len()
        invariant
            doc.trailer == old(doc).trailer,
            objs0 == old(doc).objects@,
            doc.objects@.len() == objs0.len(),
            k <= objs0.len(),
            forall|i: int| k <= i < objs0.len() ==> #[trigger] doc.objects@[i] == objs0[i],
            forall|i: int|
                0 <= i < k ==> (#[trigger] doc.objects@[i]).0 == objs0[i].0 && match recovery_at(objs0, offsets@, raw@, i) {
                    None => doc.objects@[i].1 == objs0[i].1,
                    Some((off, b)) => match objs0[i].1 {
                        PdfValue::Dictionary(es) => promoted(es@, doc.objects@[i].1, b),
                        _ => false,
                    },
                },
            recovery_views(out@) == recoveries_upto(objs0, offsets@, raw@, k as int),
        decreases objs0.len() - k,
    {
        let ghost before = recovery_views(out@);
        let id = doc.objects[k].0;
        let is_cand = match &doc.objects[k].1 {
            PdfValue::Dictionary(es) => crate::model::find_entry(es, "Length".as_bytes()).is_some(),
            _ => false,
        };
        assert(is_cand == is_candidate(objs0[k as int].1));
        if is_cand {
            if let Some(off) = xref_offset_of(offsets, id.num) {
                if let Some(body) = extract_stream_body(raw, off) {
                    let mut slot = (id, PdfValue::Null);
                    doc.objects.set_and_swap(k, &mut slot);
                    let (_, old_value) = slot;
                    match old_value {
                        PdfValue::Dictionary(mut es) => {
                            let ghost es0 = es@;
                            let declared = match crate::model::find_entry(&es, "Length".as_bytes()) {
                                Some(j) => match &es[j].1 {
                                    PdfValue::Integer(n) => Some(*n),
                                    _ => None,
                                },
                                None => None,
                            };
                            let n = body.len();
                            match length_index(&es) {
                                Some(j) => {
                                    let mut e = (Vec::new(), PdfValue::Null);
                                    es.set_and_swap(j, &mut e);
                                    let (kname, _) = e;
                                    es.set(j, (kname, PdfValue::Integer(n as i64)));
                                },
                                None => {},
                            }
                            let recovered = StreamRecovery { id, offset: off, declared_length: declared, recovered_length: n };
                            doc.objects.set(k, (id, PdfValue::Stream { dict: es, content: body }));
                            out.push(recovered);
                            proof {
                                assert(recovery_views(out@) =~= before.push((id, off, declared_of(es0), n as nat)));
                            }
                        },
                        _ => {
                            assert(false);
                            doc.objects.set(k, (id, old_value));
                        },
                    }
                }
            }
        }
        k = k + 1;
    }
    out
}

pub open spec fn rep(c: char, n: nat) -> Seq<char> {
    Seq::new(n, |i: int| c)
}

pub open spec fn recovery_line(r: (ObjRef, usize, Option<i64>, nat)) -> Seq<char> {
    "    - object "@ + dec(r.0.num as nat) + " "@ + dec(r.0.gen as nat) + " (file offset "@ + dec(r.1 as nat)
        + "): declared /Length "@ + match r.2 {
        Some(n) => dec_int(n as int),
        None => "absent"@,
    } + ", actual body "@ + dec(r.3) + " bytes\n"@
}

pub open spec fn recovery_lines(rs: Seq<(ObjRef, usize, Option<i64>, nat)>) -> Seq<char>
    decreases rs.len(),
{
    if rs.len() == 0 {
        Seq::empty()
    } else {
        recovery_lines(rs.drop_last()) + recovery_line(rs.last())
    }
}

/// The warning shown when streams were recovered: a framed explanation of
/// what a wrong `/Length` does, then a line per recovered stream with its
/// id, file offset, declared and true lengths; nothing when none was.
pub open spec fn banner_text(rs: Seq<(ObjRef, usize, Option<i64>, nat)>) -> Option<Seq<char>> {
    if rs.len() == 0 {
        None
    } else {
        Some(
            rep('=', 60) + "\n"@ + "[WARN] MALFORMED PDF: incorrect stream /Length(s) recovered\n"@ + rep('-', 60) + "\n"@
                + "  "@ + dec(rs.len()) + " content stream(s) declared a /Length that does not match the\n"@
                + "  bytes between their `stream` and `endstream` keywords. A strict\n"@
                + "  reader trusts /Length, fails to find `endstream`, and DROPS the\n"@
                + "  stream body — so the affected content (e.g. page text) silently\n"@
                + "  disappears. The writer that produced this PDF emitted a wrong\n"@
                + "  /Length. pdf-dump recovered each body by scanning to `endstream`:\n"@ + recovery_lines(rs) + rep(
                '=',
                60,
            ) + "\n"@,
        )
    }
}

fn push_rep(s: &mut String, c: char, n: usize)
    ensures
        final(s)@ == old(s)@ + rep(c, n as nat),
{
    let mut i: usize = 0;
    while i < n
        invariant
            i <= n,
            s@ == old(s)@ + rep(c, i as nat),
        decreases n - i,
    {
        crate::textbuf::push_char(s, c);
        assert(rep(c, (i + 1) as nat) =~= rep(c, i as nat).push(c));
        i = i + 1;
    }
}

fn push_recovery_line(s: &mut String, r: &StreamRecovery)
    ensures
        final(s)@ == old(s)@ + recovery_line((r.id, r.offset, r.declared_length, r.recovered_length as nat)),
{
    push_str(s, "    - object ");
    push_dec(s, r.id.num as u64);
    push_str(s, " ");
    push_dec(s, r.id.gen as u64);
    push_str(s, " (file offset ");
    push_dec(s, r.offset as u64);
    push_str(s, "): declared /Length ");
    match r.declared_length {
        Some(n) => push_dec_i64(s, n),
        None => push_str(s, "absent"),
    }
    push_str(s, ", actual body ");
    push_dec(s, r.recovered_length as u64);
    push_str(s, " bytes\n");
}

/// The warning for the recovered streams (see `banner_text`).
pub fn recovery_banner(recoveries: &Vec<StreamRecovery>) -> (r: Option<String>)
    ensures
        match banner_text(recovery_views(recoveries@)) {
            Some(t) => r is Some && r->0@ == t,
            None => r is None,
        },
{
    let ghost rv = recovery_views(recoveries@);
    if recoveries.len() == 0 {
        return None;
    }
    let mut s = String::new();
    push_rep(&mut s, '=', 60);
    push_str(&mut s, "\n");
    push_str(&mut s, "[WARN] MALFORMED PDF: incorrect stream /Length(s) recovered\n");
    push_rep(&mut s, '-', 60);
    push_str(&mut s, "\n");
    push_str(&mut s, "  ");
    push_dec(&mut s, recoveries.len() as u64);
    push_str(&mut s, " content stream(s) declared a /Length that does not match the\n");
    push_str(&mut s, "  bytes between their `stream` and `endstream` keywords. A strict\n");
    push_str(&mut s, "  reader trusts /Length, fails to find `endstream`, and DROPS the\n");
    push_str(&mut s, "  stream body — so the affected content (e.g. page text) silently\n");
    push_str(&mut s, "  disappears. The writer that produced this PDF emitted a wrong\n");
    push_str(&mut s, "  /Length. pdf-dump recovered each body by scanning to `endstream`:\n");
    let ghost head = s@;
    let mut k: usize = 0;
    assert(rv.take(0) =~= Seq::<(ObjRef, usize, Option<i64>, nat)>::empty());
    while k < recoveries.len()
        invariant
            k <= recoveries@.len(),
            rv == recovery_views(recoveries@),
            s@ == head + recovery_lines(rv.take(k as int)),
        decreases recoveries.len() - k,
    {
        let r = &recoveries[k];
        assert(rv.take(k + 1).drop_last() =~= rv.take(k as int));
        assert(rv.take(k + 1).last() == (r.id, r.offset, r.declared_length, r.recovered_length as nat));
        push_recovery_line(&mut s, r);
        k = k + 1;
    }
    assert(rv.take(k as int) =~= rv);
    push_rep(&mut s, '=', 60);
    push_str(&mut s, "\n");
    Some(s)
}

} // verus!
