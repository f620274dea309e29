//! Text extraction: show-strings decoded through a page's fonts, with a
//! count of the character codes that could not be mapped, and a judgement of
//! how far the extracted text can be trusted.
use vstd::prelude::*;
use crate::stream::{lossy_string, utf8_lossy};
use crate::textbuf::{
    chars_contain, chars_eq, contains_seq, dec, push_char, push_dec, push_line, push_str, str_chars,
    str_eq, views,
};

verus! {

/// How trustworthy a font's text extraction is, from best to worst.
#[derive(Clone, Copy, Debug, PartialEq, Eq, Structural)]
pub enum Reliability {
    Reliable,
    Degraded,
    Unreliable,
}

/// The position of a classification from best (0) to worst (2).
pub open spec fn rank(r: Reliability) -> nat {
    match r {
        Reliability::Reliable => 0,
        Reliability::Degraded => 1,
        Reliability::Unreliable => 2,
    }
}

pub open spec fn reliability_text(r: Reliability) -> Seq<char> {
    match r {
        Reliability::Reliable => "reliable"@,
        Reliability::Degraded => "degraded"@,
        Reliability::Unreliable => "unreliable"@,
    }
}

impl Reliability {
    pub fn as_str(self) -> (r: &'static str)
        ensures
            r@ == reliability_text(self),
    {
        match self {
            Reliability::Reliable => "reliable",
            Reliability::Degraded => "degraded",
            Reliability::Unreliable => "unreliable",
        }
    }
}

/// A font's reliability classification, for the banner and the JSON report.
#[derive(Debug)]
pub struct FontReliabilityRecord {
    pub name: String,
    pub base_font: String,
    pub subtype: String,
    pub classification: Reliability,
    pub has_to_unicode: bool,
    pub reason: String,
}

/// U+FFFD, the text of a code that nothing could decode.
pub open spec fn replacement() -> Seq<char> {
    seq!['\u{FFFD}']
}

/// Whether `s` is exactly the replacement character.
fn is_replacement(s: &str) -> (r: bool)
    ensures
        r == (s@ == replacement()),
{
    let c = str_chars(s);
    let r = c.len() == 1 && c[0] == '\u{FFFD}';
    if r {
        assert(s@ =~= replacement());
    }
    r
}

/// Appends the text decoded for one code and counts it: every code counts
/// toward `total`, and one decoded to U+FFFD also toward `unmapped`.
pub fn push_code(out: &mut String, s: &str, total: &mut u64, unmapped: &mut u64)
    requires
        *old(total) < u64::MAX,
        *old(unmapped) <= *old(total),
    ensures
        final(out)@ == old(out)@ + s@,
        *final(total) == *old(total) + 1,
        *final(unmapped) == *old(unmapped) + if s@ == replacement() { 1int } else { 0int },
        *final(unmapped) <= *final(total),
{
    *total = *total + 1;
    if is_replacement(s) {
        *unmapped = *unmapped + 1;
    }
    push_str(out, s);
}

/// The low 32 bits of the big-endian value of `c`.
pub open spec fn be_code(c: Seq<u8>) -> u32
    decreases c.len(),
{
    if c.len() == 0 {
        0
    } else {
        ((be_code(c.drop_last()) * 256 + c.last()) % 0x1_0000_0000) as u32
    }
}

/// `bytes` cut into codes of `w` bytes each (the last one may be shorter),
/// each read big-endian.
pub open spec fn codes_of(bytes: Seq<u8>, w: nat) -> Seq<u32>
    decreases bytes.len(),
{
    if bytes.len() == 0 || w == 0 {
        Seq::empty()
    } else {
        let n = if bytes.len() < w { bytes.len() as int } else { w as int };
        seq![be_code(bytes.take(n))] + codes_of(bytes.skip(n), w)
    }
}

/// The codes of a show-string for a font whose codes are `width` bytes wide
/// (at least one).
pub open spec fn spec_split_codes(bytes: Seq<u8>, width: u8) -> Seq<u32> {
    codes_of(bytes, if width == 0 { 1 } else { width as nat })
}

proof fn lemma_codes_len(bytes: Seq<u8>, w: nat)
    requires
        w >= 1,
    ensures
        codes_of(bytes, w).len() <= bytes.len(),
    decreases bytes.len(),
{
    if bytes.len() > 0 {
        let n = if bytes.len() < w { bytes.len() as int } else { w as int };
        lemma_codes_len(bytes.skip(n), w);
    }
}

proof fn lemma_two_byte_codes(bytes: Seq<u8>)
    requires
        bytes.len() % 2 == 0,
    ensures
        codes_of(bytes, 2).len() == bytes.len() / 2,
        forall|i: int|
            0 <= i < bytes.len() / 2 ==> #[trigger] codes_of(bytes, 2)[i] == bytes[2 * i] * 256
                + bytes[2 * i + 1],
    decreases bytes.len(),
{
    if bytes.len() > 0 {
        let rest = bytes.skip(2);
        lemma_two_byte_codes(rest);
        let first = bytes.take(2);
        let f1 = first.drop_last();
        assert(f1.drop_last() =~= Seq::<u8>::empty());
        assert(be_code(f1.drop_last()) == 0);
        assert(f1.last() == first[0]);
        assert((0 * 256 + first[0]) % 0x1_0000_0000 == first[0]);
        assert(be_code(f1) == first[0]);
        assert(first[0] * 256 + first[1] < 0x1_0000_0000);
        assert(be_code(first) == first[0] * 256 + first[1]);
        let c = codes_of(bytes, 2);
        assert forall|i: int| 0 <= i < bytes.len() / 2 implies #[trigger] c[i] == bytes[2 * i] * 256
            + bytes[2 * i + 1] by {
            if i > 0 {
                assert(c[i] == codes_of(rest, 2)[i - 1]);
                assert(rest[2 * (i - 1)] == bytes[2 * i]);
                assert(rest[2 * (i - 1) + 1] == bytes[2 * i + 1]);
            }
        }
    }
}

proof fn lemma_one_byte_codes(bytes: Seq<u8>)
    ensures
        codes_of(bytes, 1).len() == bytes.len(),
        forall|i: int| 0 <= i < bytes.len() ==> #[trigger] codes_of(bytes, 1)[i] == bytes[i],
    decreases bytes.len(),
{
    if bytes.len() > 0 {
        let rest = bytes.skip(1);
        lemma_one_byte_codes(rest);
        let first = bytes.take(1);
        assert(first.drop_last() =~= Seq::<u8>::empty());
        assert(be_code(first.drop_last()) == 0);
        assert(first.last() == bytes[0]);
        assert((0 * 256 + bytes[0]) % 0x1_0000_0000 == bytes[0]);
        assert(be_code(first) == bytes[0]);
        let c = codes_of(bytes, 1);
        assert forall|i: int| 0 <= i < bytes.len() implies #[trigger] c[i] == bytes[i] by {
            if i > 0 {
                assert(c[i] == codes_of(rest, 1)[i - 1]);
            }
        }
    }
}

/// How a show-string is cut into character codes: one byte per code for a
/// width of one (or zero), and for a width of two, each pair of bytes read
/// high byte first.
pub proof fn law_code_widths(bytes: Seq<u8>)
    ensures
        spec_split_codes(bytes, 1).len() == bytes.len(),
        spec_split_codes(bytes, 0) == spec_split_codes(bytes, 1),
        forall|i: int| 0 <= i < bytes.len() ==> #[trigger] spec_split_codes(bytes, 1)[i] == bytes[i],
        bytes.len() % 2 == 0 ==> spec_split_codes(bytes, 2).len() == bytes.len() / 2,
        bytes.len() % 2 == 0 ==> forall|i: int|
            0 <= i < bytes.len() / 2 ==> #[trigger] spec_split_codes(bytes, 2)[i] == bytes[2 * i]
                * 256 + bytes[2 * i + 1],
{
    lemma_one_byte_codes(bytes);
    if bytes.len() % 2 == 0 {
        lemma_two_byte_codes(bytes);
    }
}

/// Splits a show-string into big-endian codes of `width` bytes (at least 1).
pub fn split_codes(bytes: &[u8], width: u8) -> (r: Vec<u32>)
    ensures
        r@ == spec_split_codes(bytes@, width),
        r@.len() <= bytes@.len(),
{
    let w: usize = if width == 0 { 1 } else { width as usize };
    let ghost wn = w as nat;
    let mut r: Vec<u32> = Vec::new();
    let mut i: usize = 0;
    assert(bytes@.skip(0) =~= bytes@);
    while i < bytes.len()
        invariant
            i <= bytes@.len(),
            w >= 1,
            wn == w,
            wn == (if width == 0 { 1 } else { width as nat }),
            r@ + codes_of(bytes@.skip(i as int), wn) == codes_of(bytes@, wn),
        decreases bytes.len() - i,
    {
        let rest = bytes.len() - i;
        let n = if rest < w { rest } else { w };
        let mut v: u32 = 0;
        let mut k: usize = 0;
        while k < n
            invariant
                i + n <= bytes@.len(),
                k <= n,
                v == be_code(bytes@.subrange(i as int, i + k)),
            decreases n - k,
        {
            assert(bytes@.subrange(i as int, i + k + 1).drop_last() =~= bytes@.subrange(
                i as int,
                i + k,
            ));
            assert(i + k < bytes.len());
            v = ((v as u64 * 256 + bytes[i + k] as u64) % 0x1_0000_0000) as u32;
            k = k + 1;
        }
        let ghost tail = bytes@.skip(i as int);
        assert(tail.take(n as int) =~= bytes@.subrange(i as int, i + n));
        assert(tail.skip(n as int) =~= bytes@.skip(i + n));
        r.push(v);
        assert(r@ + codes_of(bytes@.skip(i + n), wn) =~= (r@.drop_last() + codes_of(tail, wn)));
        i = i + n;
    }
    proof {
        assert(r@ =~= r@ + codes_of(bytes@.skip(i as int), wn));
        lemma_codes_len(bytes@, wn);
    }
    r
}

/// How a font's show-string bytes become text.
#[derive(Debug)]
pub enum FontDecoder {
    /// Codes of `width` bytes looked up in a ToUnicode map, given as pairs of
    /// a code and its text; the first pair with a code decides.
    ToUnicode { map: Vec<(u32, String)>, width: u8 },
    /// A single-byte font: `overrides` (one entry per byte value) holds the
    /// text that `/Differences` assigns, and is consulted first; other bytes
    /// go through the base encoding table `decode` (one entry per byte value),
    /// or, without one, through UTF-8 as single bytes.
    SimpleTable { decode: Option<Vec<Option<String>>>, overrides: Vec<Option<String>> },
    /// The bytes read as UTF-8 text.
    Passthrough,
}

/// The tables of a single-byte decoder have one entry per byte value.
pub open spec fn decoder_wf(d: FontDecoder) -> bool {
    match d {
        FontDecoder::SimpleTable { decode, overrides } => {
            &&& overrides@.len() == 256
            &&& match decode {
                Some(t) => t@.len() == 256,
                None => true,
            }
        },
        _ => true,
    }
}

/// The text of `code` in a ToUnicode map: the first pair with that code.
pub open spec fn cmap_lookup(m: Seq<(u32, String)>, code: u32) -> Option<Seq<char>>
    decreases m.len(),
{
    if m.len() == 0 {
        None
    } else if m[0].0 == code {
        Some(m[0].1@)
    } else {
        cmap_lookup(m.drop_first(), code)
    }
}

/// The text a ToUnicode font gives one code: its mapping, or U+FFFD.
pub open spec fn code_text(m: Seq<(u32, String)>, code: u32) -> Seq<char> {
    match cmap_lookup(m, code) {
        Some(t) => t,
        None => replacement(),
    }
}

/// A single byte read as UTF-8: an ASCII character, or U+FFFD.
pub open spec fn single_byte_text(b: u8) -> Seq<char> {
    if b < 0x80 {
        seq![b as char]
    } else {
        replacement()
    }
}

pub open spec fn text_of(o: Option<String>) -> Option<Seq<char>> {
    match o {
        Some(s) => Some(s@),
        None => None,
    }
}

/// The text a single-byte font gives byte `b`.
pub open spec fn byte_text(
    decode: Option<Seq<Option<String>>>,
    overrides: Seq<Option<String>>,
    b: u8,
) -> Seq<char> {
    match text_of(overrides[b as int]) {
        Some(s) => s,
        None => match decode {
            Some(t) => match text_of(t[b as int]) {
                Some(s) => s,
                None => replacement(),
            },
            None => single_byte_text(b),
        },
    }
}

pub open spec fn table_of(decode: Option<Vec<Option<String>>>) -> Option<Seq<Option<String>>> {
    match decode {
        Some(t) => Some(t@),
        None => None,
    }
}

/// The text of each code of a show-string under the active font; without a
/// font, or with one that cannot decode, each character of the bytes read as
/// UTF-8 (invalid sequences as U+FFFD).
pub open spec fn show_pieces(bytes: Seq<u8>, font: Option<FontDecoder>) -> Seq<Seq<char>> {
    match font {
        Some(FontDecoder::ToUnicode { map, width }) => spec_split_codes(bytes, width).map_values(
            |c: u32| code_text(map@, c),
        ),
        Some(FontDecoder::SimpleTable { decode, overrides }) => bytes.map_values(
            |b: u8| byte_text(table_of(decode), overrides@, b),
        ),
        _ => utf8_lossy(bytes).map_values(|c: char| seq![c]),
    }
}

/// The pieces of text one after another.
pub open spec fn joined(p: Seq<Seq<char>>) -> Seq<char>
    decreases p.len(),
{
    if p.len() == 0 {
        Seq::empty()
    } else {
        joined(p.drop_last()) + p.last()
    }
}

/// How many pieces are U+FFFD.
pub open spec fn unmapped_count(p: Seq<Seq<char>>) -> nat
    decreases p.len(),
{
    if p.len() == 0 {
        0
    } else {
        unmapped_count(p.drop_last()) + if p.last() == replacement() { 1nat } else { 0nat }
    }
}

proof fn lemma_unmapped_le(p: Seq<Seq<char>>)
    ensures
        unmapped_count(p) <= p.len(),
    decreases p.len(),
{
    if p.len() > 0 {
        lemma_unmapped_le(p.drop_last());
    }
}

/// The first pair of `m` with `code`.
fn cmap_find(m: &Vec<(u32, String)>, code: u32) -> (r: Option<usize>)
    ensures
        match r {
            Some(j) => j < m@.len() && cmap_lookup(m@, code) == Some(m@[j as int].1@),
            None => cmap_lookup(m@, code) is None,
        },
{
    let mut i: usize = 0;
    assert(m@.skip(0) =~= m@);
    while i < m.len()
        invariant
            i <= m@.len(),
            cmap_lookup(m@, code) == cmap_lookup(m@.skip(i as int), code),
        decreases m.len() - i,
    {
        assert(m@.skip(i as int).drop_first() =~= m@.skip(i + 1));
        if m[i].0 == code {
            return Some(i);
        }
        i = i + 1;
    }
    None
}

/// One step of emitting pieces: the invariant that ties the output and the
/// counters to the pieces emitted so far.
pub open spec fn emitted(
    out: Seq<char>,
    total: u64,
    unmapped: u64,
    out0: Seq<char>,
    total0: u64,
    unmapped0: u64,
    done: Seq<Seq<char>>,
) -> bool {
    &&& out == out0 + joined(done)
    &&& total == total0 + done.len()
    &&& unmapped == unmapped0 + unmapped_count(done)
    &&& unmapped <= total
}

proof fn lemma_emit_step(ps: Seq<Seq<char>>, k: int)
    requires
        0 <= k < ps.len(),
    ensures
        joined(ps.take(k + 1)) == joined(ps.take(k)) + ps[k],
        unmapped_count(ps.take(k + 1)) == unmapped_count(ps.take(k)) + if ps[k] == replacement() {
            1nat
        } else {
            0nat
        },
{
    assert(ps.take(k + 1).drop_last() =~= ps.take(k));
}

/// Appends a show-string decoded through the active font and counts its
/// codes (see `show_pieces`).
pub fn emit_show_string(
    out: &mut String,
    bytes: &[u8],
    font: Option<&FontDecoder>,
    total: &mut u64,
    unmapped: &mut u64,
)
    requires
        *old(total) + bytes@.len() <= u64::MAX,
        *old(unmapped) <= *old(total),
        match font {
            Some(f) => decoder_wf(*f),
            None => true,
        },
    ensures
        ({
            let ps = show_pieces(
                bytes@,
                match font {
                    Some(f) => Some(*f),
                    None => None,
                },
            );
            emitted(final(out)@, *final(total), *final(unmapped), old(out)@, *old(total), *old(unmapped), ps)
        }),
        *final(total) <= *old(total) + bytes@.len(),
{
    let ghost out0 = out@;
    let ghost total0 = *total;
    let ghost unmapped0 = *unmapped;
    let ghost fo = match font {
        Some(f) => Some(*f),
        None => None,
    };
    let ghost ps = show_pieces(bytes@, fo);
    proof {
        reveal_strlit("\u{FFFD}");
        assert(ps.take(0) =~= Seq::<Seq<char>>::empty());
    }
    match font {
        Some(FontDecoder::ToUnicode { map, width }) => {
            let codes = split_codes(bytes, *width);
            let mut k: usize = 0;
            while k < codes.len()
                invariant
                    k <= codes@.len(),
                    codes@.len() <= bytes@.len(),
                    total0 + bytes@.len() <= u64::MAX,
                    ps.len() == codes@.len(),
                    forall|j: int| 0 <= j < codes@.len() ==> #[trigger] ps[j] == code_text(map@, codes@[j]),
                    emitted(out@, *total, *unmapped, out0, total0, unmapped0, ps.take(k as int)),
                decreases codes.len() - k,
            {
                proof {
                    lemma_emit_step(ps, k as int);
                    reveal_strlit("\u{FFFD}");
                }
                let piece: &str = match cmap_find(map, codes[k]) {
                    Some(j) => map[j].1.as_str(),
                    None => "\u{FFFD}",
                };
                assert(piece@ == ps[k as int]);
                push_code(out, piece, total, unmapped);
                assert(ps[k as int] == code_text(map@, codes@[k as int]));
                assert(out@ =~= out0 + joined(ps.take(k + 1)));
                k = k + 1;
            }
            assert(ps.take(k as int) =~= ps);
        },
        Some(FontDecoder::SimpleTable { decode, overrides }) => {
            let mut k: usize = 0;
            while k < bytes.len()
                invariant
                    k <= bytes@.len(),
                    total0 + bytes@.len() <= u64::MAX,
                    overrides@.len() == 256,
                    match decode {
                        Some(t) => t@.len() == 256,
                        None => true,
                    },
                    ps.len() == bytes@.len(),
                    forall|j: int| 0 <= j < bytes@.len() ==> #[trigger] ps[j] == byte_text(table_of(*decode), overrides@, bytes@[j]),
                    emitted(out@, *total, *unmapped, out0, total0, unmapped0, ps.take(k as int)),
                decreases bytes.len() - k,
            {
                proof {
                    lemma_emit_step(ps, k as int);
                    reveal_strlit("\u{FFFD}");
                }
                let b = bytes[k];
                assert(ps[k as int] == byte_text(table_of(*decode), overrides@, b));
                let mut one = String::new();
                let piece: &str = match &overrides[b as usize] {
                    Some(s) => s.as_str(),
                    None => match decode {
                        Some(t) => match &t[b as usize] {
                            Some(s) => s.as_str(),
                            None => "\u{FFFD}",
                        },
                        None => {
                            if b < 0x80 {
                                push_char(&mut one, b as char);
                                one.as_str()
                            } else {
                                "\u{FFFD}"
                            }
                        },
                    },
                };
                assert(piece@ =~= ps[k as int]);
                push_code(out, piece, total, unmapped);
                assert(out@ =~= out0 + joined(ps.take(k + 1)));
                k = k + 1;
            }
            assert(ps.take(k as int) =~= ps);
        },
        _ => {
            let text = lossy_string(bytes);
            let chars = str_chars(text.as_str());
            let mut k: usize = 0;
            while k < chars.len()
                invariant
                    k <= chars@.len(),
                    chars@ == utf8_lossy(bytes@),
                    chars@.len() <= bytes@.len(),
                    total0 + bytes@.len() <= u64::MAX,
                    ps == utf8_lossy(bytes@).map_values(|c: char| seq![c]),
                    emitted(out@, *total, *unmapped, out0, total0, unmapped0, ps.take(k as int)),
                decreases chars.len() - k,
            {
                proof {
                    lemma_emit_step(ps, k as int);
                    reveal_strlit("\u{FFFD}");
                }
                let c = chars[k];
                assert(ps[k as int] == seq![c]);
                *total = *total + 1;
                if c == '\u{FFFD}' {
                    *unmapped = *unmapped + 1;
                }
                assert((seq![c] == replacement()) == (c == '\u{FFFD}')) by {
                    if seq![c] == replacement() {
                        assert(seq![c][0] == replacement()[0]);
                    }
                }
                push_char(out, c);
                assert(out@ =~= out0 + joined(ps.take(k + 1)));
                k = k + 1;
            }
            assert(ps.take(k as int) =~= ps);
        },
    }
}

/// The base encodings that have a decoding table.
#[derive(Clone, Copy, Debug, PartialEq, Eq, Structural)]
pub enum BaseEncoding {
    WinAnsi,
    MacRoman,
    Standard,
    MacExpert,
}

/// The table for a base encoding's name, if it has one.
pub open spec fn table_for_name(name: Seq<char>) -> Option<BaseEncoding> {
    if name == "WinAnsiEncoding"@ {
        Some(BaseEncoding::WinAnsi)
    } else if name == "MacRomanEncoding"@ {
        Some(BaseEncoding::MacRoman)
    } else if name == "StandardEncoding"@ {
        Some(BaseEncoding::Standard)
    } else if name == "MacExpertEncoding"@ {
        Some(BaseEncoding::MacExpert)
    } else {
        None
    }
}

/// The decoding table for a simple font's base encoding, or `None` for an
/// encoding that has none (or no encoding at all).
pub fn simple_table_for(encoding: Option<&str>) -> (r: Option<BaseEncoding>)
    ensures
        r == match encoding {
            Some(e) => table_for_name(e@),
            None => None,
        },
{
    match encoding {
        None => None,
        Some(e) => {
            if str_eq(e, "WinAnsiEncoding") {
                Some(BaseEncoding::WinAnsi)
            } else if str_eq(e, "MacRomanEncoding") {
                Some(BaseEncoding::MacRoman)
            } else if str_eq(e, "StandardEncoding") {
                Some(BaseEncoding::Standard)
            } else if str_eq(e, "MacExpertEncoding") {
                Some(BaseEncoding::MacExpert)
            } else {
                None
            }
        },
    }
}

/// The key that identifies a font across pages: name, base font and subtype
/// joined by `|`.
pub open spec fn record_key(r: FontReliabilityRecord) -> Seq<char> {
    r.name@ + "|"@ + r.base_font@ + "|"@ + r.subtype@
}

/// No record before position `i` has the key of record `i`.
pub open spec fn first_of_key(rs: Seq<FontReliabilityRecord>, i: int) -> bool {
    forall|j: int| 0 <= j < i ==> record_key(#[trigger] rs[j]) != record_key(rs[i])
}

/// The records whose key has not occurred before, in their order.
pub open spec fn dedup_spec(rs: Seq<FontReliabilityRecord>) -> Seq<FontReliabilityRecord>
    decreases rs.len(),
{
    if rs.len() == 0 {
        Seq::empty()
    } else if first_of_key(rs, rs.len() - 1) {
        dedup_spec(rs.drop_last()).push(rs.last())
    } else {
        dedup_spec(rs.drop_last())
    }
}

fn key_chars(r: &FontReliabilityRecord) -> (k: Vec<char>)
    ensures
        k@ == record_key(*r),
{
    let mut s = String::new();
    push_str(&mut s, r.name.as_str());
    push_str(&mut s, "|");
    push_str(&mut s, r.base_font.as_str());
    push_str(&mut s, "|");
    push_str(&mut s, r.subtype.as_str());
    str_chars(s.as_str())
}

/// Keeps the first record of each font, in order (a font recurs on every
/// page that uses it).
pub fn dedup_font_records(records: Vec<FontReliabilityRecord>) -> (r: Vec<FontReliabilityRecord>)
    ensures
        r@ == dedup_spec(records@),
{
    let ghost rs = records@;
    let mut rest = records;
    let mut out: Vec<FontReliabilityRecord> = Vec::new();
    let mut seen: Vec<Vec<char>> = Vec::new();
    let mut k: usize = 0;
    let n = rest.len();
    assert(rs.take(0) =~= Seq::<FontReliabilityRecord>::empty());
    while k < n
        invariant
            n == rs.len(),
            k <= n,
            rest@ == rs.skip(k as int),
            out@ == dedup_spec(rs.take(k as int)),
            seen@.len() == k,
            forall|j: int| 0 <= j < k ==> (#[trigger] seen@[j])@ == record_key(rs[j]),
        decreases n - k,
    {
        assert(rest@.len() == n - k);
        let rec = rest.remove(0);
        assert(rec == rs[k as int]);
        assert(rest@ =~= rs.skip(k + 1));
        let key = key_chars(&rec);
        let mut found = false;
        let mut m: usize = 0;
        while m < seen.len()
            invariant
                m <= seen@.len(),
                key@ == record_key(rec),
                found == exists|q: int| 0 <= q < m && (#[trigger] seen@[q])@ == key@,
            decreases seen.len() - m,
        {
            if chars_eq(&seen[m], &key) {
                found = true;
            }
            m = m + 1;
        }
        proof {
            let now = rs.take(k + 1);
            assert(now.drop_last() =~= rs.take(k as int));
            assert(now.last() == rec);
            assert forall|j: int| 0 <= j < k implies now[j] == rs[j] by {}
            if found {
                let q = choose|q: int| 0 <= q < seen@.len() && (#[trigger] seen@[q])@ == key@;
                assert(record_key(now[q]) == record_key(now[k as int]));
                assert(!first_of_key(now, k as int));
            } else {
                assert forall|j: int| 0 <= j < k implies record_key(#[trigger] now[j]) != record_key(now[k as int]) by {
                    assert(seen@[j]@ == record_key(rs[j]));
                }
                assert(first_of_key(now, k as int));
            }
        }
        if !found {
            out.push(rec);
        }
        seen.push(key);
        k = k + 1;
    }
    assert(rs.take(n as int) =~= rs);
    out
}

/// The worse of two classifications.
pub open spec fn worse(a: Reliability, b: Reliability) -> Reliability {
    if rank(a) >= rank(b) {
        a
    } else {
        b
    }
}

/// The worst classification among the fonts (`Reliable` for none).
pub open spec fn worst(fonts: Seq<FontReliabilityRecord>) -> Reliability
    decreases fonts.len(),
{
    if fonts.len() == 0 {
        Reliability::Reliable
    } else {
        worse(worst(fonts.drop_last()), fonts.last().classification)
    }
}

/// More than a fifth of the codes shown could not be mapped.
pub open spec fn low_coverage(total: u64, unmapped: u64) -> bool {
    total > 0 && 5 * unmapped > total
}

/// How far the extracted text can be trusted overall: as far as its least
/// trustworthy font allows, and no better than `Degraded` when too many
/// codes could not be mapped.
pub open spec fn verdict_of(fonts: Seq<FontReliabilityRecord>, total: u64, unmapped: u64) -> Reliability {
    let w = worst(fonts);
    if low_coverage(total, unmapped) && rank(w) < 2 {
        Reliability::Degraded
    } else {
        w
    }
}

fn worse_exec(a: Reliability, b: Reliability) -> (r: Reliability)
    ensures
        r == worse(a, b),
{
    let ra: u8 = match a {
        Reliability::Reliable => 0,
        Reliability::Degraded => 1,
        Reliability::Unreliable => 2,
    };
    let rb: u8 = match b {
        Reliability::Reliable => 0,
        Reliability::Degraded => 1,
        Reliability::Unreliable => 2,
    };
    if ra >= rb {
        a
    } else {
        b
    }
}

/// The document's text-extraction verdict over its fonts and the codes its
/// content showed.
pub fn document_verdict(fonts: &[FontReliabilityRecord], total: u64, unmapped: u64) -> (r: Reliability)
    ensures
        r == verdict_of(fonts@, total, unmapped),
{
    let mut verdict = Reliability::Reliable;
    let mut i: usize = 0;
    while i < fonts.len()
        invariant
            i <= fonts@.len(),
            verdict == worst(fonts@.take(i as int)),
        decreases fonts.len() - i,
    {
        assert(fonts@.take(i + 1).drop_last() =~= fonts@.take(i as int));
        verdict = worse_exec(verdict, fonts[i].classification);
        i = i + 1;
    }
    assert(fonts@.take(fonts@.len() as int) =~= fonts@);
    let low = total > 0 && (unmapped as u128) * 5 > total as u128;
    match verdict {
        Reliability::Unreliable => verdict,
        _ => if low {
            Reliability::Degraded
        } else {
            verdict
        },
    }
}

proof fn lemma_worst(fonts: Seq<FontReliabilityRecord>)
    ensures
        forall|i: int| 0 <= i < fonts.len() ==> rank(worst(fonts)) >= rank(#[trigger] fonts[i].classification),
        worst(fonts) == Reliability::Reliable || exists|i: int| 0 <= i < fonts.len()
            && #[trigger] fonts[i].classification == worst(fonts),
    decreases fonts.len(),
{
    if fonts.len() > 0 {
        let prev = fonts.drop_last();
        lemma_worst(prev);
        assert forall|i: int| 0 <= i < fonts.len() implies rank(worst(fonts)) >= rank(#[trigger] fonts[i].classification) by {
            if i < fonts.len() - 1 {
                assert(fonts[i] == prev[i]);
            }
        }
        if worst(fonts) != Reliability::Reliable {
            if worst(fonts) == fonts.last().classification {
                assert(fonts[fonts.len() - 1].classification == worst(fonts));
            } else {
                let i = choose|i: int| 0 <= i < prev.len() && #[trigger] prev[i].classification == worst(prev);
                assert(fonts[i] == prev[i]);
            }
        }
    }
}

/// The verdict is never better than any font's classification.
pub proof fn law_verdict_at_least_every_font(fonts: Seq<FontReliabilityRecord>, total: u64, unmapped: u64)
    ensures
        forall|i: int| 0 <= i < fonts.len() ==> rank(verdict_of(fonts, total, unmapped)) >= rank(#[trigger] fonts[i].classification),
{
    lemma_worst(fonts);
}

/// The verdict is `Unreliable` exactly when some font is.
pub proof fn law_unreliable_iff_some_font(fonts: Seq<FontReliabilityRecord>, total: u64, unmapped: u64)
    ensures
        (verdict_of(fonts, total, unmapped) == Reliability::Unreliable) <==> exists|i: int| 0 <= i < fonts.len()
            && #[trigger] fonts[i].classification == Reliability::Unreliable,
{
    lemma_worst(fonts);
    if exists|i: int| 0 <= i < fonts.len() && #[trigger] fonts[i].classification == Reliability::Unreliable {
        let i = choose|i: int| 0 <= i < fonts.len() && #[trigger] fonts[i].classification == Reliability::Unreliable;
        assert(rank(worst(fonts)) >= rank(fonts[i].classification));
    }
}

/// Low coverage only lowers `Reliable` to `Degraded`: the verdict is at worst
/// `Degraded` when every font is, and `Reliable` fonts with good coverage
/// give a `Reliable` verdict.
pub proof fn law_coverage_only_degrades(fonts: Seq<FontReliabilityRecord>, total: u64, unmapped: u64)
    ensures
        rank(verdict_of(fonts, total, unmapped)) <= if rank(worst(fonts)) >= 1 { rank(worst(fonts)) } else { 1 },
        !low_coverage(total, unmapped) ==> verdict_of(fonts, total, unmapped) == worst(fonts),
{
}

/// A font whose problem the banner lists, with the subtype shown as `?` when
/// empty.
pub open spec fn problem_line(f: FontReliabilityRecord) -> Seq<char> {
    "    - "@ + f.name@ + " ("@ + f.base_font@ + ", "@ + (if f.subtype@.len() == 0 { "?"@ } else { f.subtype@ })
        + "): "@ + f.reason@
}

/// The banner lines of the fonts that are not `Reliable`, in order.
pub open spec fn problem_lines(fonts: Seq<FontReliabilityRecord>) -> Seq<Seq<char>>
    decreases fonts.len(),
{
    if fonts.len() == 0 {
        Seq::empty()
    } else if fonts.last().classification != Reliability::Reliable {
        problem_lines(fonts.drop_last()).push(problem_line(fonts.last()))
    } else {
        problem_lines(fonts.drop_last())
    }
}

/// `n` copies of `c`.
pub open spec fn repeat_char(c: char, n: nat) -> Seq<char> {
    Seq::new(n, |i: int| c)
}

/// The banner for a verdict that is not `Reliable`; `pct` is the share of
/// unmapped codes in percent, as the caller rounded it.
pub open spec fn banner_lines(
    fonts: Seq<FontReliabilityRecord>,
    total: u64,
    unmapped: u64,
    pct: u64,
) -> Seq<Seq<char>> {
    let v = verdict_of(fonts, total, unmapped);
    if v == Reliability::Reliable {
        Seq::empty()
    } else {
        let head = if v == Reliability::Unreliable {
            "[ERROR] TEXT EXTRACTION RELIABILITY: UNRELIABLE"@
        } else {
            "[WARN] TEXT EXTRACTION RELIABILITY: DEGRADED"@
        };
        let probs = problem_lines(fonts);
        let list = if probs.len() == 0 {
            Seq::<Seq<char>>::empty()
        } else {
            seq![
                "  "@ + dec(probs.len()) + " font(s) could not be decoded reliably; extracted text"@,
                "  for those fonts may be inaccurate:"@,
            ] + probs
        };
        let codes = if total > 0 && unmapped > 0 {
            seq![
                "  "@ + dec(unmapped as nat) + " of "@ + dec(total as nat) + " character codes ("@ + dec(
                    pct as nat,
                ) + "%) could not be mapped."@,
            ]
        } else {
            Seq::<Seq<char>>::empty()
        };
        seq![repeat_char('=', 56), head, repeat_char('-', 56)] + list + codes + seq![repeat_char('=', 56)]
    }
}

fn repeated(c: char, n: usize) -> (r: String)
    ensures
        r@ == repeat_char(c, n as nat),
{
    let mut r = String::new();
    let mut i: usize = 0;
    while i < n
        invariant
            i <= n,
            r@ == repeat_char(c, i as nat),
        decreases n - i,
    {
        push_char(&mut r, c);
        assert(repeat_char(c, (i + 1) as nat) =~= repeat_char(c, i as nat).push(c));
        i = i + 1;
    }
    r
}

fn problem_line_exec(f: &FontReliabilityRecord) -> (r: String)
    ensures
        r@ == problem_line(*f),
{
    let mut r = String::new();
    push_str(&mut r, "    - ");
    push_str(&mut r, f.name.as_str());
    push_str(&mut r, " (");
    push_str(&mut r, f.base_font.as_str());
    push_str(&mut r, ", ");
    let sub = str_chars(f.subtype.as_str());
    if sub.len() == 0 {
        push_str(&mut r, "?");
    } else {
        push_str(&mut r, f.subtype.as_str());
    }
    push_str(&mut r, "): ");
    push_str(&mut r, f.reason.as_str());
    r
}

fn collect_problem_lines(fonts: &[FontReliabilityRecord]) -> (r: Vec<String>)
    ensures
        views(r@) == problem_lines(fonts@),
{
    let mut r: Vec<String> = Vec::new();
    let mut i: usize = 0;
    assert(views(r@) =~= problem_lines(fonts@.take(0)));
    while i < fonts.len()
        invariant
            i <= fonts@.len(),
            views(r@) == problem_lines(fonts@.take(i as int)),
        decreases fonts.len() - i,
    {
        assert(fonts@.take(i + 1).drop_last() =~= fonts@.take(i as int));
        assert(fonts@.take(i + 1).last() == fonts@[i as int]);
        if fonts[i].classification != Reliability::Reliable {
            push_line(&mut r, problem_line_exec(&fonts[i]));
        }
        i = i + 1;
    }
    assert(fonts@.take(fonts@.len() as int) =~= fonts@);
    r
}

/// The banner that warns, on the error stream, that extracted text is not
/// fully reliable; empty when it is. `pct` is the share of unmapped codes in
/// percent, rounded by the caller.
pub fn reliability_banner(
    fonts: &[FontReliabilityRecord],
    total: u64,
    unmapped: u64,
    pct: u64,
) -> (r: Vec<String>)
    ensures
        views(r@) == banner_lines(fonts@, total, unmapped, pct),
{
    let mut lines: Vec<String> = Vec::new();
    assert(views(lines@) =~= Seq::<Seq<char>>::empty());
    let v = document_verdict(fonts, total, unmapped);
    if v == Reliability::Reliable {
        return lines;
    }
    push_line(&mut lines, repeated('=', 56));
    let mut head = String::new();
    if v == Reliability::Unreliable {
        push_str(&mut head, "[ERROR] TEXT EXTRACTION RELIABILITY: UNRELIABLE");
    } else {
        push_str(&mut head, "[WARN] TEXT EXTRACTION RELIABILITY: DEGRADED");
    }
    push_line(&mut lines, head);
    push_line(&mut lines, repeated('-', 56));
    let ghost top = views(lines@);
    let probs = collect_problem_lines(fonts);
    let count = probs.len();
    if count > 0 {
        let mut l1 = String::new();
        push_str(&mut l1, "  ");
        push_dec(&mut l1, count as u64);
        push_str(&mut l1, " font(s) could not be decoded reliably; extracted text");
        push_line(&mut lines, l1);
        let mut l2 = String::new();
        push_str(&mut l2, "  for those fonts may be inaccurate:");
        push_line(&mut lines, l2);
        let ghost mid = views(lines@);
        let mut i: usize = 0;
        let mut rest = probs;
        let ghost all = views(rest@);
        assert(all.skip(0) =~= all);
        assert(all.take(0) =~= Seq::<Seq<char>>::empty());
        while i < count
            invariant
                i <= count,
                all.len() == count,
                views(rest@) == all.skip(i as int),
                views(lines@) == mid + all.take(i as int),
            decreases count - i,
        {
            assert(views(rest@).len() == count - i);
            let ghost before = rest@;
            let line = rest.remove(0);
            assert(views(before)[0] == before[0]@);
            assert(all.skip(i as int)[0] == all[i as int]);
            assert(line@ == all[i as int]);
            assert(views(rest@) =~= views(before).drop_first());
            assert(views(rest@) =~= all.skip(i + 1));
            push_line(&mut lines, line);
            assert(all.take(i + 1) =~= all.take(i as int).push(all[i as int]));
            i = i + 1;
        }
        assert(all.take(count as int) =~= all);
    }
    if total > 0 && unmapped > 0 {
        let mut l = String::new();
        push_str(&mut l, "  ");
        push_dec(&mut l, unmapped);
        push_str(&mut l, " of ");
        push_dec(&mut l, total);
        push_str(&mut l, " character codes (");
        push_dec(&mut l, pct);
        push_str(&mut l, "%) could not be mapped.");
        push_line(&mut lines, l);
    }
    push_line(&mut lines, repeated('=', 56));
    assert(views(lines@) =~= banner_lines(fonts@, total, unmapped, pct));
    lines
}

/// One element of an `/Encoding /Differences` array.
#[derive(Debug)]
pub enum DiffItem {
    /// A number: the code the next glyph name is assigned to.
    Code(i64),
    /// A glyph name, with the text the Adobe Glyph List gives it (`None`
    /// when it has no entry).
    Name(Option<String>),
    /// Anything else, which is skipped.
    Other,
}

/// What a `/Differences` array assigns: the text of each byte value it
/// names (256 entries; U+FFFD for a name without text), how many names it
/// assigns to a byte value, and how many of those had no text.
#[derive(Debug)]
pub struct DifferencesOverrides {
    pub map: Vec<Option<String>>,
    pub total: usize,
    pub unresolved: usize,
}

/// The state of the walk over a `/Differences` array: the current code, the
/// text per byte value, the names assigned and the names without text.
pub struct DiffState {
    pub code: i64,
    pub map: Seq<Option<Seq<char>>>,
    pub total: nat,
    pub unresolved: nat,
}

/// A number sets the current code; a name is assigned to the current code,
/// when that is a byte value, and the code moves on by one (in 64-bit two's
/// complement, past the largest value to the smallest).
pub open spec fn diff_step(st: DiffState, item: DiffItem) -> DiffState {
    match item {
        DiffItem::Code(n) => DiffState { code: n, ..st },
        DiffItem::Name(text) => {
            let next: i64 = if st.code == i64::MAX { i64::MIN } else { (st.code + 1) as i64 };
            if 0 <= st.code <= 255 {
                DiffState {
                    code: next,
                    map: st.map.update(
                        st.code as int,
                        Some(
                            match text {
                                Some(t) => t@,
                                None => replacement(),
                            },
                        ),
                    ),
                    total: st.total + 1,
                    unresolved: st.unresolved + if text is None { 1nat } else { 0nat },
                }
            } else {
                DiffState { code: next, ..st }
            }
        },
        DiffItem::Other => st,
    }
}

pub open spec fn diff_start() -> DiffState {
    DiffState { code: 0, map: Seq::new(256, |i: int| None), total: 0, unresolved: 0 }
}

/// The walk over the whole array.
pub open spec fn diff_walk(items: Seq<DiffItem>) -> DiffState
    decreases items.len(),
{
    if items.len() == 0 {
        diff_start()
    } else {
        diff_step(diff_walk(items.drop_last()), items.last())
    }
}

pub open spec fn map_texts(m: Seq<Option<String>>) -> Seq<Option<Seq<char>>> {
    m.map_values(|o: Option<String>| text_of(o))
}

/// The text a glyph name stands for: its Adobe Glyph List text, or U+FFFD.
pub open spec fn glyph_text(t: Option<String>) -> Seq<char> {
    match t {
        Some(s) => s@,
        None => replacement(),
    }
}

/// A `/Differences` array that is one code followed by glyph names.
pub open spec fn code_then_names(c: i64, names: Seq<Option<String>>) -> Seq<DiffItem> {
    seq![DiffItem::Code(c)] + names.map_values(|t: Option<String>| DiffItem::Name(t))
}

proof fn lemma_code_then_names(c: i64, names: Seq<Option<String>>, k: nat)
    requires
        0 <= c,
        c + names.len() <= 256,
        k <= names.len(),
    ensures
        ({
            let st = diff_walk(code_then_names(c, names.take(k as int)));
            &&& st.code == c + k
            &&& st.total == k
            &&& st.map.len() == 256
            &&& forall|j: int| 0 <= j < k ==> #[trigger] st.map[c + j] == Some(glyph_text(names[j]))
            &&& forall|b: int| 0 <= b < 256 && !(c <= b < c + k) ==> #[trigger] st.map[b] is None
        }),
    decreases k,
{
    let items = code_then_names(c, names.take(k as int));
    if k == 0 {
        assert(items =~= seq![DiffItem::Code(c)]);
        assert(items.drop_last() =~= Seq::<DiffItem>::empty());
        assert(diff_walk(items.drop_last()) == diff_start());
        assert(items.last() == DiffItem::Code(c));
        let st = diff_walk(items);
        assert(st == diff_step(diff_start(), DiffItem::Code(c)));
        assert(st.map == Seq::new(256, |i: int| None::<Seq<char>>));
    } else {
        lemma_code_then_names(c, names, (k - 1) as nat);
        let prev = code_then_names(c, names.take(k - 1));
        assert(items.drop_last() =~= prev);
        assert(items.last() == DiffItem::Name(names[k - 1]));
        let st0 = diff_walk(prev);
        let st = diff_walk(items);
        assert(st == diff_step(st0, DiffItem::Name(names[k - 1])));
        assert(0 <= st0.code <= 255);
        assert(st.code == c + k);
        assert(st.total == k);
        assert(st.map == st0.map.update(c + k - 1, Some(glyph_text(names[k - 1]))));
        assert forall|j: int| 0 <= j < k implies #[trigger] st.map[c + j] == Some(
            glyph_text(names[j]),
        ) by {
            if j < k - 1 {
                assert(st0.map[c + j] == Some(glyph_text(names[j])));
            }
        }
        assert forall|b: int| 0 <= b < 256 && !(c <= b < c + k) implies #[trigger] st.map[b] is None by {
            assert(st0.map[b] is None);
        }
    }
}

/// A code in `/Differences` applies to the glyph name right after it and
/// each further name takes the next code: a code `c` followed by names
/// `n0, n1, ...` gives `c` the text of `n0`, `c + 1` that of `n1`, and so
/// on, names every one of them, and leaves all other byte values unmapped.
pub proof fn law_differences_assign_consecutive_codes(c: i64, names: Seq<Option<String>>)
    requires
        0 <= c,
        c + names.len() <= 256,
    ensures
        diff_walk(code_then_names(c, names)).total == names.len(),
        forall|j: int|
            0 <= j < names.len() ==> #[trigger] diff_walk(code_then_names(c, names)).map[c + j] == Some(
                glyph_text(names[j]),
            ),
        forall|b: int|
            0 <= b < 256 && !(c <= b < c + names.len()) ==> #[trigger] diff_walk(
                code_then_names(c, names),
            ).map[b] is None,
{
    lemma_code_then_names(c, names, names.len());
    assert(names.take(names.len() as int) =~= names);
}

proof fn lemma_diff_walk_bounds(items: Seq<DiffItem>)
    ensures
        diff_walk(items).map.len() == 256,
        diff_walk(items).unresolved <= diff_walk(items).total,
        diff_walk(items).total <= items.len(),
        diff_walk(items).total == 0 ==> forall|b: int| 0 <= b < 256 ==> #[trigger] diff_walk(items).map[b] is None,
        diff_walk(items).total > 0 ==> exists|b: int| 0 <= b < 256 && #[trigger] diff_walk(items).map[b] is Some,
    decreases items.len(),
{
    if items.len() > 0 {
        lemma_diff_walk_bounds(items.drop_last());
        let st = diff_walk(items.drop_last());
        match items.last() {
            DiffItem::Name(_) => {
                if 0 <= st.code <= 255 {
                    assert(diff_walk(items).map[st.code as int] is Some);
                } else if st.total > 0 {
                    let b = choose|b: int| 0 <= b < 256 && #[trigger] st.map[b] is Some;
                    assert(diff_walk(items).map[b] is Some);
                }
            },
            _ => {
                if st.total > 0 {
                    let b = choose|b: int| 0 <= b < 256 && #[trigger] st.map[b] is Some;
                    assert(diff_walk(items).map[b] is Some);
                }
            },
        }
    }
}

fn fffd_string() -> (r: String)
    ensures
        r@ == replacement(),
{
    let mut r = String::new();
    push_char(&mut r, '\u{FFFD}');
    assert(r@ =~= replacement());
    r
}

/// Walks an `/Encoding /Differences` array: numbers set the current code,
/// each name is assigned to it and advances it.
pub fn build_differences_overrides(items: &Vec<DiffItem>) -> (r: DifferencesOverrides)
    ensures
        map_texts(r.map@) == diff_walk(items@).map,
        r.total == diff_walk(items@).total,
        r.unresolved == diff_walk(items@).unresolved,
        r.map@.len() == 256,
{
    let mut map: Vec<Option<String>> = Vec::new();
    let mut b: usize = 0;
    while b < 256
        invariant
            b <= 256,
            map@.len() == b,
            forall|j: int| 0 <= j < b ==> (#[trigger] map@[j]) is None,
        decreases 256 - b,
    {
        map.push(None);
        b = b + 1;
    }
    assert(map_texts(map@) =~= diff_start().map);
    let mut code: i64 = 0;
    let mut total: usize = 0;
    let mut unresolved: usize = 0;
    let mut i: usize = 0;
    while i < items.len()
        invariant
            i <= items@.len(),
            map@.len() == 256,
            total <= i,
            unresolved <= total,
            ({
                let st = diff_walk(items@.take(i as int));
                &&& st.code == code
                &&& st.map == map_texts(map@)
                &&& st.total == total
                &&& st.unresolved == unresolved
            }),
        decreases items.len() - i,
    {
        assert(items@.take(i + 1).drop_last() =~= items@.take(i as int));
        assert(items@.take(i + 1).last() == items@[i as int]);
        match &items[i] {
            DiffItem::Code(n) => {
                code = *n;
            },
            DiffItem::Name(text) => {
                if 0 <= code && code <= 255 {
                    let t = match text {
                        Some(t) => t.clone(),
                        None => fffd_string(),
                    };
                    let ghost old_map = map@;
                    map.set(code as usize, Some(t));
                    assert(map_texts(map@) =~= map_texts(old_map).update(code as int, text_of(map@[code as int])));
                    total = total + 1;
                    if text.is_none() {
                        unresolved = unresolved + 1;
                    }
                }
                code = if code == i64::MAX { i64::MIN } else { code + 1 };
            },
            DiffItem::Other => {},
        }
        i = i + 1;
    }
    assert(items@.take(items@.len() as int) =~= items@);
    DifferencesOverrides { map, total, unresolved }
}

/// The width of the codes in a ToUnicode CMap's codespace.
#[derive(Clone, Copy, Debug, PartialEq, Eq, Structural)]
pub enum CodeWidth {
    /// Every code has this many bytes.
    Fixed(u8),
    /// Codes of several widths.
    Variable,
    /// No codespace given.
    Unknown,
}

/// A parsed ToUnicode CMap: its mappings as pairs of a code and its text,
/// and its code width.
#[derive(Debug)]
pub struct ToUnicodeFacts {
    pub map: Vec<(u32, String)>,
    pub width: CodeWidth,
}

/// How a font's `/Encoding` entry stands.
#[derive(Debug)]
pub enum EncodingEntry {
    /// A name.
    Name(String),
    /// A dictionary written in place.
    Dictionary,
    /// A reference; whether its object is a dictionary or a name.
    Reference { resolves_to_dict_or_name: bool },
    /// Absent, or any other value.
    Other,
}

/// What the text decoding reads from one font of a page's resources.
#[derive(Debug)]
pub struct FontFacts {
    /// The font's resource name, such as `F1`.
    pub name: String,
    /// `/Subtype`, when it is a name.
    pub subtype: Option<String>,
    /// `/BaseFont`, when it is a name.
    pub base_font: Option<String>,
    /// Whether the dictionary has a `/ToUnicode` key.
    pub has_to_unicode: bool,
    /// The parsed CMap, when `/ToUnicode` refers to a stream.
    pub to_unicode: Option<ToUnicodeFacts>,
    /// `/Encoding`.
    pub encoding: EncodingEntry,
    /// The base encoding's name: `/Encoding` itself when it is (or refers
    /// to) a name, else the `/BaseEncoding` of its dictionary.
    pub base_encoding: Option<String>,
    /// The `/Differences` array of the encoding dictionary, if any.
    pub differences: Option<Vec<DiffItem>>,
}

/// The decoding tables of the base encodings, one entry per byte value.
#[derive(Debug)]
pub struct EncodingTables {
    pub win_ansi: Vec<Option<String>>,
    pub mac_roman: Vec<Option<String>>,
    pub standard: Vec<Option<String>>,
    pub mac_expert: Vec<Option<String>>,
}

pub open spec fn tables_wf(t: EncodingTables) -> bool {
    t.win_ansi@.len() == 256 && t.mac_roman@.len() == 256 && t.standard@.len() == 256
        && t.mac_expert@.len() == 256
}

pub open spec fn table_in(t: EncodingTables, b: BaseEncoding) -> Seq<Option<String>> {
    match b {
        BaseEncoding::WinAnsi => t.win_ansi@,
        BaseEncoding::MacRoman => t.mac_roman@,
        BaseEncoding::Standard => t.standard@,
        BaseEncoding::MacExpert => t.mac_expert@,
    }
}

/// `/Subtype`, empty when absent.
pub open spec fn subtype_of(f: FontFacts) -> Seq<char> {
    match f.subtype {
        Some(s) => s@,
        None => Seq::empty(),
    }
}

/// `/BaseFont`, `-` when absent.
pub open spec fn base_font_of(f: FontFacts) -> Seq<char> {
    match f.base_font {
        Some(s) => s@,
        None => "-"@,
    }
}

/// A composite (CID-keyed) font subtype.
pub open spec fn is_cid_subtype(s: Seq<char>) -> bool {
    s == "Type0"@ || s == "CIDFontType0"@ || s == "CIDFontType2"@
}

/// The standard 14 fonts other than the two symbolic ones.
pub open spec fn is_standard14_text(n: Seq<char>) -> bool {
    ||| n == "Courier"@
    ||| n == "Courier-Bold"@
    ||| n == "Courier-BoldOblique"@
    ||| n == "Courier-Oblique"@
    ||| n == "Helvetica"@
    ||| n == "Helvetica-Bold"@
    ||| n == "Helvetica-BoldOblique"@
    ||| n == "Helvetica-Oblique"@
    ||| n == "Times-Roman"@
    ||| n == "Times-Bold"@
    ||| n == "Times-BoldItalic"@
    ||| n == "Times-Italic"@
}

/// The symbolic standard fonts.
pub open spec fn is_symbolic14(n: Seq<char>) -> bool {
    n == "Symbol"@ || n == "ZapfDingbats"@
}

/// The base table a simple font decodes through: its named base encoding,
/// or for a standard text font without one, the Standard encoding.
pub open spec fn base_table_of(f: FontFacts) -> Option<BaseEncoding> {
    let named = match f.base_encoding {
        Some(e) => table_for_name(e@),
        None => None,
    };
    match named {
        Some(b) => Some(b),
        None => if is_standard14_text(base_font_of(f)) {
            Some(BaseEncoding::Standard)
        } else {
            None
        },
    }
}

/// The walk over the font's `/Differences` (none when it has none).
pub open spec fn diff_of(f: FontFacts) -> DiffState {
    match f.differences {
        Some(items) => diff_walk(items@),
        None => diff_start(),
    }
}

/// The font's `/Differences` names at least one glyph.
pub open spec fn has_diff_names(f: FontFacts) -> bool {
    match f.differences {
        Some(items) => exists|i: int| 0 <= i < items@.len() && #[trigger] items@[i] is Name,
        None => false,
    }
}

/// The font has a ToUnicode CMap with at least one mapping.
pub open spec fn cmap_usable(f: FontFacts) -> bool {
    match f.to_unicode {
        Some(t) => t.map@.len() > 0,
        None => false,
    }
}

/// The code width used with the CMap: its fixed width, else 2 bytes for a
/// composite font and 1 for a simple one.
pub open spec fn cmap_width(f: FontFacts) -> u8 {
    match f.to_unicode {
        Some(t) => match t.width {
            CodeWidth::Fixed(w) => w,
            _ => if is_cid_subtype(subtype_of(f)) {
                2
            } else {
                1
            },
        },
        None => 1,
    }
}

/// How a font is decoded.
#[derive(Clone, Copy, Debug, PartialEq, Eq, Structural)]
pub enum Plan {
    /// Through its CMap, with codes of this width.
    ToUnicode(u8),
    /// As a simple font through this base table, consulting the
    /// `/Differences` overrides first when the flag is set.
    Table(Option<BaseEncoding>, bool),
    /// As raw bytes.
    Passthrough,
}

/// A usable CMap comes first; then, for a simple font, `/Differences`
/// overrides (over the base table, if any), or a base table alone; else the
/// raw bytes.
pub open spec fn plan_of(f: FontFacts) -> Plan {
    if cmap_usable(f) {
        Plan::ToUnicode(cmap_width(f))
    } else if !is_cid_subtype(subtype_of(f)) && diff_of(f).total > 0 {
        Plan::Table(base_table_of(f), true)
    } else if !is_cid_subtype(subtype_of(f)) && base_table_of(f) is Some {
        Plan::Table(base_table_of(f), false)
    } else {
        Plan::Passthrough
    }
}

/// The classification and reason recorded for a font.
pub open spec fn classification_of(f: FontFacts) -> (Reliability, Seq<char>) {
    match plan_of(f) {
        Plan::Table(_, true) => if diff_of(f).unresolved == 0 {
            (Reliability::Reliable, Seq::empty())
        } else {
            (
                Reliability::Degraded,
                dec(diff_of(f).unresolved) + " of "@ + dec(diff_of(f).total)
                    + " /Differences glyph name(s) unresolved by the Adobe Glyph List"@,
            )
        },
        Plan::Passthrough => if is_cid_subtype(subtype_of(f)) {
            (Reliability::Unreliable, "CID/Type0 font without a ToUnicode map"@)
        } else if is_symbolic14(base_font_of(f)) {
            (Reliability::Degraded, "symbolic font without a ToUnicode map"@)
        } else if has_diff_names(f) {
            (Reliability::Degraded, "custom /Differences encoding without a ToUnicode map"@)
        } else {
            (Reliability::Degraded, "no ToUnicode map or recognized encoding"@)
        },
        _ => (Reliability::Reliable, Seq::empty()),
    }
}

/// Every one of the twelve non-symbolic standard fonts (the Courier,
/// Helvetica and Times families, each in its four styles), used as a simple
/// font with no `/Encoding` and no ToUnicode CMap, is decoded through the
/// Standard encoding alone and its text is classified reliable; such a font
/// under any other base font name (the two symbolic ones among them) falls
/// back to its raw bytes and is not classified reliable.
pub proof fn law_standard_text_fonts_decode_through_standard(f: FontFacts)
    requires
        !is_cid_subtype(subtype_of(f)),
        f.base_encoding is None,
        f.differences is None,
        f.to_unicode is None,
    ensures
        ({
            let n = base_font_of(f);
            let listed = {
                ||| n == "Courier"@
                ||| n == "Courier-Bold"@
                ||| n == "Courier-Oblique"@
                ||| n == "Courier-BoldOblique"@
                ||| n == "Helvetica"@
                ||| n == "Helvetica-Bold"@
                ||| n == "Helvetica-Oblique"@
                ||| n == "Helvetica-BoldOblique"@
                ||| n == "Times-Roman"@
                ||| n == "Times-Bold"@
                ||| n == "Times-Italic"@
                ||| n == "Times-BoldItalic"@
            };
            &&& listed ==> base_table_of(f) == Some(BaseEncoding::Standard)
            &&& listed ==> plan_of(f) == Plan::Table(Some(BaseEncoding::Standard), false)
            &&& !listed ==> plan_of(f) == Plan::Passthrough
            &&& (classification_of(f).0 == Reliability::Reliable) == listed
        }),
{
}

/// `d` decodes font `f` as its plan says.
pub open spec fn decoder_for(d: FontDecoder, f: FontFacts, tables: EncodingTables) -> bool {
    match plan_of(f) {
        Plan::ToUnicode(w) => d matches FontDecoder::ToUnicode { map, width } && width == w
            && map@ == f.to_unicode->0.map@,
        Plan::Table(base, with_overrides) => d matches FontDecoder::SimpleTable { decode, overrides }
            && table_of(decode) == (match base {
            Some(b) => Some(table_in(tables, b)),
            None => None,
        }) && map_texts(overrides@) == (if with_overrides {
            diff_of(f).map
        } else {
            diff_start().map
        }) && overrides@.len() == 256,
        Plan::Passthrough => d is Passthrough,
    }
}

fn opt_is(o: &Option<String>, lit: &str) -> (r: bool)
    ensures
        r == (o is Some && o->0@ == lit@),
{
    match o {
        Some(s) => str_eq(s.as_str(), lit),
        None => false,
    }
}

fn text_or(o: &Option<String>, default: &str) -> (r: String)
    ensures
        r@ == match o {
            Some(s) => s@,
            None => default@,
        },
{
    let mut r = String::new();
    match o {
        Some(s) => push_str(&mut r, s.as_str()),
        None => push_str(&mut r, default),
    }
    r
}

fn cid_subtype(s: &str) -> (r: bool)
    ensures
        r == is_cid_subtype(s@),
{
    str_eq(s, "Type0") || str_eq(s, "CIDFontType0") || str_eq(s, "CIDFontType2")
}

fn standard14_text(n: &str) -> (r: bool)
    ensures
        r == is_standard14_text(n@),
{
    str_eq(n, "Courier") || str_eq(n, "Courier-Bold") || str_eq(n, "Courier-BoldOblique")
        || str_eq(n, "Courier-Oblique") || str_eq(n, "Helvetica") || str_eq(n, "Helvetica-Bold")
        || str_eq(n, "Helvetica-BoldOblique") || str_eq(n, "Helvetica-Oblique") || str_eq(
        n,
        "Times-Roman",
    ) || str_eq(n, "Times-Bold") || str_eq(n, "Times-BoldItalic") || str_eq(n, "Times-Italic")
}

fn symbolic14(n: &str) -> (r: bool)
    ensures
        r == is_symbolic14(n@),
{
    str_eq(n, "Symbol") || str_eq(n, "ZapfDingbats")
}

fn copy_table(t: &Vec<Option<String>>) -> (r: Vec<Option<String>>)
    ensures
        r@ == t@,
{
    let mut r: Vec<Option<String>> = Vec::new();
    let mut i: usize = 0;
    while i < t.len()
        invariant
            i <= t@.len(),
            r@ == t@.take(i as int),
        decreases t.len() - i,
    {
        let e = match &t[i] {
            Some(s) => Some(s.clone()),
            None => None,
        };
        r.push(e);
        assert(t@.take(i + 1) =~= t@.take(i as int).push(t@[i as int]));
        i = i + 1;
    }
    assert(t@.take(t@.len() as int) =~= t@);
    r
}

fn table_copy(tables: &EncodingTables, b: BaseEncoding) -> (r: Vec<Option<String>>)
    ensures
        r@ == table_in(*tables, b),
{
    match b {
        BaseEncoding::WinAnsi => copy_table(&tables.win_ansi),
        BaseEncoding::MacRoman => copy_table(&tables.mac_roman),
        BaseEncoding::Standard => copy_table(&tables.standard),
        BaseEncoding::MacExpert => copy_table(&tables.mac_expert),
    }
}

fn empty_overrides() -> (r: Vec<Option<String>>)
    ensures
        map_texts(r@) == diff_start().map,
        r@.len() == 256,
{
    let mut map: Vec<Option<String>> = Vec::new();
    let mut b: usize = 0;
    while b < 256
        invariant
            b <= 256,
            map@.len() == b,
            forall|j: int| 0 <= j < b ==> (#[trigger] map@[j]) is None,
        decreases 256 - b,
    {
        map.push(None);
        b = b + 1;
    }
    assert(map_texts(map@) =~= diff_start().map);
    map
}

fn any_diff_name(items: &Vec<DiffItem>) -> (r: bool)
    ensures
        r == exists|i: int| 0 <= i < items@.len() && #[trigger] items@[i] is Name,
{
    let mut i: usize = 0;
    while i < items.len()
        invariant
            i <= items@.len(),
            forall|j: int| 0 <= j < i ==> !(#[trigger] items@[j] is Name),
        decreases items.len() - i,
    {
        if let DiffItem::Name(_) = &items[i] {
            return true;
        }
        i = i + 1;
    }
    false
}

/// The decoder and the reliability record of one font.
pub fn build_font_decoder(f: FontFacts, tables: &EncodingTables) -> (r: (FontDecoder, FontReliabilityRecord))
    requires
        tables_wf(*tables),
    ensures
        decoder_for(r.0, f, *tables),
        decoder_wf(r.0),
        r.1.name@ == "/"@ + f.name@,
        r.1.base_font@ == base_font_of(f),
        r.1.subtype@ == subtype_of(f),
        r.1.has_to_unicode == f.has_to_unicode,
        r.1.classification == classification_of(f).0,
        r.1.reason@ == classification_of(f).1,
{
    proof {
        reveal_strlit("");
    }
    let ghost fs = f;
    let subtype = text_or(&f.subtype, "");
    let base_font = text_or(&f.base_font, "-");
    let is_cid = cid_subtype(subtype.as_str());
    assert(""@ =~= Seq::<char>::empty());
    assert(subtype@ == subtype_of(fs));
    assert(is_cid == is_cid_subtype(subtype_of(fs)));
    let mut name = String::new();
    push_str(&mut name, "/");
    push_str(&mut name, f.name.as_str());
    let has_to_unicode = f.has_to_unicode;
    let usable = match &f.to_unicode {
        Some(t) => t.map.len() > 0,
        None => false,
    };
    let named = match &f.base_encoding {
        Some(e) => simple_table_for(Some(e.as_str())),
        None => None,
    };
    let base = match named {
        Some(b) => Some(b),
        None => if standard14_text(base_font.as_str()) {
            Some(BaseEncoding::Standard)
        } else {
            None
        },
    };
    assert(base == base_table_of(fs));
    let diff = match &f.differences {
        Some(items) => build_differences_overrides(items),
        None => DifferencesOverrides { map: empty_overrides(), total: 0, unresolved: 0 },
    };
    let names_present = match &f.differences {
        Some(items) => any_diff_name(items),
        None => false,
    };
    let mut reason = String::new();
    let (decoder, classification) = if usable {
        let t = f.to_unicode.unwrap();
        let width = match t.width {
            CodeWidth::Fixed(w) => w,
            _ => if is_cid {
                2
            } else {
                1
            },
        };
        assert(cmap_usable(fs));
        assert(width == cmap_width(fs));
        assert(plan_of(fs) == Plan::ToUnicode(width));
        (FontDecoder::ToUnicode { map: t.map, width }, Reliability::Reliable)
    } else if !is_cid && diff.total > 0 {
        assert(plan_of(fs) == Plan::Table(base, true));
        let decode = match base {
            Some(b) => Some(table_copy(tables, b)),
            None => None,
        };
        let class = if diff.unresolved == 0 {
            Reliability::Reliable
        } else {
            push_dec(&mut reason, diff.unresolved as u64);
            push_str(&mut reason, " of ");
            push_dec(&mut reason, diff.total as u64);
            push_str(&mut reason, " /Differences glyph name(s) unresolved by the Adobe Glyph List");
            Reliability::Degraded
        };
        (FontDecoder::SimpleTable { decode, overrides: diff.map }, class)
    } else if !is_cid && base.is_some() {
        assert(plan_of(fs) == Plan::Table(base, false));
        let decode = match base {
            Some(b) => Some(table_copy(tables, b)),
            None => None,
        };
        (FontDecoder::SimpleTable { decode, overrides: empty_overrides() }, Reliability::Reliable)
    } else {
        assert(plan_of(fs) == Plan::Passthrough);
        let class = if is_cid {
            push_str(&mut reason, "CID/Type0 font without a ToUnicode map");
            Reliability::Unreliable
        } else if symbolic14(base_font.as_str()) {
            push_str(&mut reason, "symbolic font without a ToUnicode map");
            Reliability::Degraded
        } else if names_present {
            push_str(&mut reason, "custom /Differences encoding without a ToUnicode map");
            Reliability::Degraded
        } else {
            push_str(&mut reason, "no ToUnicode map or recognized encoding");
            Reliability::Degraded
        };
        (FontDecoder::Passthrough, class)
    };
    let record = FontReliabilityRecord {
        name,
        base_font,
        subtype,
        classification,
        has_to_unicode,
        reason,
    };
    (decoder, record)
}

/// `/Encoding` names a base encoding with a table, is a dictionary, or
/// refers to a dictionary or a name.
pub open spec fn known_encoding(e: EncodingEntry) -> bool {
    match e {
        EncodingEntry::Name(n) => table_for_name(n@) is Some,
        EncodingEntry::Dictionary => true,
        EncodingEntry::Reference { resolves_to_dict_or_name } => resolves_to_dict_or_name,
        EncodingEntry::Other => false,
    }
}

/// `/BaseFont` as the warnings show it: the resource name when absent.
pub open spec fn warned_base_font(f: FontFacts) -> Seq<char> {
    match f.base_font {
        Some(b) => b@,
        None => f.name@,
    }
}

/// The warning for a font whose text may be inaccurate: a composite font,
/// or a simple font other than the standard 14, with neither a ToUnicode map
/// nor a recognised encoding.
pub open spec fn encoding_warning(f: FontFacts) -> Option<Seq<char>> {
    let sub = subtype_of(f);
    let base = warned_base_font(f);
    if f.has_to_unicode || known_encoding(f.encoding) {
        None
    } else if is_cid_subtype(sub) {
        Some(
            "Font /"@ + f.name@ + " ("@ + base
                + ") uses CID encoding without ToUnicode map. Text may be inaccurate."@,
        )
    } else if (sub == "Type1"@ || sub == "TrueType"@ || sub == "Type3"@) && !is_standard14_text(base)
        && !is_symbolic14(base) {
        Some(
            "Font /"@ + f.name@ + " ("@ + base
                + ") has no explicit encoding or ToUnicode map. Text may be inaccurate."@,
        )
    } else {
        None
    }
}

/// The warnings of the fonts, in order.
pub open spec fn encoding_warnings(fonts: Seq<FontFacts>) -> Seq<Seq<char>>
    decreases fonts.len(),
{
    if fonts.len() == 0 {
        Seq::empty()
    } else {
        match encoding_warning(fonts.last()) {
            Some(w) => encoding_warnings(fonts.drop_last()).push(w),
            None => encoding_warnings(fonts.drop_last()),
        }
    }
}

fn font_encoding_warning(f: &FontFacts) -> (r: Option<String>)
    ensures
        match r {
            Some(w) => encoding_warning(*f) == Some(w@),
            None => encoding_warning(*f) is None,
        },
{
    proof {
        reveal_strlit("");
    }
    if f.has_to_unicode {
        return None;
    }
    let known = match &f.encoding {
        EncodingEntry::Name(n) => simple_table_for(Some(n.as_str())).is_some(),
        EncodingEntry::Dictionary => true,
        EncodingEntry::Reference { resolves_to_dict_or_name } => *resolves_to_dict_or_name,
        EncodingEntry::Other => false,
    };
    if known {
        return None;
    }
    let sub = text_or(&f.subtype, "");
    assert(""@ =~= Seq::<char>::empty());
    let base = match &f.base_font {
        Some(b) => b.clone(),
        None => f.name.clone(),
    };
    let cid = cid_subtype(sub.as_str());
    let simple = str_eq(sub.as_str(), "Type1") || str_eq(sub.as_str(), "TrueType") || str_eq(
        sub.as_str(),
        "Type3",
    );
    let standard = standard14_text(base.as_str()) || symbolic14(base.as_str());
    if !cid && !(simple && !standard) {
        return None;
    }
    let mut w = String::new();
    push_str(&mut w, "Font /");
    push_str(&mut w, f.name.as_str());
    push_str(&mut w, " (");
    push_str(&mut w, base.as_str());
    if cid {
        push_str(&mut w, ") uses CID encoding without ToUnicode map. Text may be inaccurate.");
    } else {
        push_str(&mut w, ") has no explicit encoding or ToUnicode map. Text may be inaccurate.");
    }
    Some(w)
}

/// Warnings for the fonts of a page that lack a ToUnicode map and a
/// recognised encoding.
pub fn check_page_font_encodings(fonts: &Vec<FontFacts>) -> (r: Vec<String>)
    ensures
        views(r@) == encoding_warnings(fonts@),
{
    let mut r: Vec<String> = Vec::new();
    let mut i: usize = 0;
    assert(views(r@) =~= encoding_warnings(fonts@.take(0)));
    while i < fonts.len()
        invariant
            i <= fonts@.len(),
            views(r@) == encoding_warnings(fonts@.take(i as int)),
        decreases fonts.len() - i,
    {
        assert(fonts@.take(i + 1).drop_last() =~= fonts@.take(i as int));
        assert(fonts@.take(i + 1).last() == fonts@[i as int]);
        match font_encoding_warning(&fonts[i]) {
            Some(w) => push_line(&mut r, w),
            None => {},
        }
        i = i + 1;
    }
    assert(fonts@.take(fonts@.len() as int) =~= fonts@);
    r
}

/// The text every encoding warning ends with.
pub open spec fn font_warning_marker() -> Seq<char> {
    "Text may be inaccurate"@
}

/// Whether a page warning is one of the font encoding warnings, which the
/// reliability banner summarises instead.
pub fn is_font_warning(w: &str) -> (r: bool)
    ensures
        r == contains_seq(w@, font_warning_marker()),
{
    let text = str_chars(w);
    let marker = str_chars("Text may be inaccurate");
    chars_contain(&text, &marker)
}

/// An element of a `TJ` array.
#[derive(Debug)]
pub enum TjItem {
    /// A string to show.
    Text(Vec<u8>),
    /// An integer adjustment.
    Int(i64),
    /// A real adjustment, and whether it is below -100.
    Real { below_minus_100: bool },
    /// Anything else.
    Other,
}

/// The second operand of `Td` or `TD`.
#[derive(Debug)]
pub enum TyOperand {
    Int(i64),
    /// A real, and whether it is negative.
    Real { negative: bool },
    Other,
}

/// The content stream operators that text extraction reads.
#[derive(Debug)]
pub enum TextOp {
    /// `BT`.
    BeginText,
    /// `Tf`, with the font's resource name when the first operand is a name.
    SetFont(Option<String>),
    /// `Td` or `TD` with at least two operands.
    MoveText(TyOperand),
    /// `T*`.
    NextLine,
    /// `Tj`, with its string when the first operand is one.
    Show(Option<Vec<u8>>),
    /// `TJ`, with its array when the first operand is one.
    ShowArray(Option<Vec<TjItem>>),
    /// `'`, with its string when the first operand is one.
    NextLineShow(Option<Vec<u8>>),
    /// `"`, with its string when the third operand is one.
    NextLineShowSpaced(Option<Vec<u8>>),
    /// Any other operator.
    Other,
}

/// The state of text extraction: the text so far, the code counters,
/// whether no `BT` has been seen yet, and the active font (an index into the
/// page's font table).
pub struct ExtractState {
    pub text: Seq<char>,
    pub total: nat,
    pub unmapped: nat,
    pub first_bt: bool,
    pub font: Option<int>,
}

/// The last font in the table with this resource name (a later entry
/// replaces an earlier one).
pub open spec fn font_lookup(fonts: Seq<(String, FontDecoder)>, name: Seq<char>) -> Option<int>
    decreases fonts.len(),
{
    if fonts.len() == 0 {
        None
    } else if fonts.last().0@ == name {
        Some(fonts.len() - 1)
    } else {
        font_lookup(fonts.drop_last(), name)
    }
}

pub open spec fn active_decoder(fonts: Seq<(String, FontDecoder)>, font: Option<int>) -> Option<FontDecoder> {
    match font {
        Some(i) => Some(fonts[i].1),
        None => None,
    }
}

/// A show-string decoded through the active font.
pub open spec fn show(st: ExtractState, bytes: Seq<u8>, fonts: Seq<(String, FontDecoder)>) -> ExtractState {
    let ps = show_pieces(bytes, active_decoder(fonts, st.font));
    ExtractState {
        text: st.text + joined(ps),
        total: st.total + ps.len(),
        unmapped: st.unmapped + unmapped_count(ps),
        ..st
    }
}

pub open spec fn push_text(st: ExtractState, c: char) -> ExtractState {
    ExtractState { text: st.text.push(c), ..st }
}

/// A `TJ` element: strings are shown; an adjustment below -100 (a wide gap)
/// becomes a space.
pub open spec fn tj_step(st: ExtractState, item: TjItem, fonts: Seq<(String, FontDecoder)>) -> ExtractState {
    match item {
        TjItem::Text(b) => show(st, b@, fonts),
        TjItem::Int(n) => if n < -100 {
            push_text(st, ' ')
        } else {
            st
        },
        TjItem::Real { below_minus_100 } => if below_minus_100 {
            push_text(st, ' ')
        } else {
            st
        },
        TjItem::Other => st,
    }
}

pub open spec fn tj_fold(st: ExtractState, items: Seq<TjItem>, fonts: Seq<(String, FontDecoder)>) -> ExtractState
    decreases items.len(),
{
    if items.len() == 0 {
        st
    } else {
        tj_step(tj_fold(st, items.drop_last(), fonts), items.last(), fonts)
    }
}

pub open spec fn show_opt(st: ExtractState, b: Option<Vec<u8>>, fonts: Seq<(String, FontDecoder)>) -> ExtractState {
    match b {
        Some(bytes) => show(st, bytes@, fonts),
        None => st,
    }
}

/// One operator: `BT` starts a new line unless it is the first or the text
/// already ends a line; `Tf` selects the font; a move down, `T*`, `'` and
/// `"` end a line; `Tj`, `TJ`, `'` and `"` show text.
pub open spec fn op_step(st: ExtractState, op: TextOp, fonts: Seq<(String, FontDecoder)>) -> ExtractState {
    match op {
        TextOp::BeginText => {
            let ends_line = st.text.len() > 0 && st.text.last() == '\n';
            let t = if !st.first_bt && !ends_line { st.text.push('\n') } else { st.text };
            ExtractState { text: t, first_bt: false, ..st }
        },
        TextOp::SetFont(Some(n)) => ExtractState { font: font_lookup(fonts, n@), ..st },
        TextOp::MoveText(ty) => {
            let down = match ty {
                TyOperand::Int(n) => n < 0,
                TyOperand::Real { negative } => negative,
                TyOperand::Other => false,
            };
            if down {
                push_text(st, '\n')
            } else {
                st
            }
        },
        TextOp::NextLine => push_text(st, '\n'),
        TextOp::Show(b) => show_opt(st, b, fonts),
        TextOp::ShowArray(Some(items)) => tj_fold(st, items@, fonts),
        TextOp::NextLineShow(b) => show_opt(push_text(st, '\n'), b, fonts),
        TextOp::NextLineShowSpaced(b) => show_opt(push_text(st, '\n'), b, fonts),
        _ => st,
    }
}

pub open spec fn extract_start() -> ExtractState {
    ExtractState { text: Seq::empty(), total: 0, unmapped: 0, first_bt: true, font: None }
}

/// The operators applied in order.
pub open spec fn extract_fold(ops: Seq<TextOp>, fonts: Seq<(String, FontDecoder)>) -> ExtractState
    decreases ops.len(),
{
    if ops.len() == 0 {
        extract_start()
    } else {
        op_step(extract_fold(ops.drop_last(), fonts), ops.last(), fonts)
    }
}

pub open spec fn opt_len(b: Option<Vec<u8>>) -> nat {
    match b {
        Some(v) => v@.len(),
        None => 0,
    }
}

/// The bytes the `TJ` elements show.
pub open spec fn tj_bytes(items: Seq<TjItem>) -> nat
    decreases items.len(),
{
    if items.len() == 0 {
        0
    } else {
        tj_bytes(items.drop_last()) + match items.last() {
            TjItem::Text(b) => b@.len(),
            _ => 0,
        }
    }
}

pub open spec fn op_bytes(op: TextOp) -> nat {
    match op {
        TextOp::Show(b) => opt_len(b),
        TextOp::ShowArray(Some(items)) => tj_bytes(items@),
        TextOp::NextLineShow(b) => opt_len(b),
        TextOp::NextLineShowSpaced(b) => opt_len(b),
        _ => 0,
    }
}

/// The bytes all operators show.
pub open spec fn ops_bytes(ops: Seq<TextOp>) -> nat
    decreases ops.len(),
{
    if ops.len() == 0 {
        0
    } else {
        ops_bytes(ops.drop_last()) + op_bytes(ops.last())
    }
}

proof fn lemma_ops_bytes_prefix(ops: Seq<TextOp>, i: int)
    requires
        0 <= i <= ops.len(),
    ensures
        ops_bytes(ops.take(i)) <= ops_bytes(ops),
    decreases ops.len() - i,
{
    if i < ops.len() {
        lemma_ops_bytes_prefix(ops, i + 1);
        assert(ops.take(i + 1).drop_last() =~= ops.take(i));
    } else {
        assert(ops.take(i) =~= ops);
    }
}

proof fn lemma_tj_bytes_prefix(items: Seq<TjItem>, i: int)
    requires
        0 <= i <= items.len(),
    ensures
        tj_bytes(items.take(i)) <= tj_bytes(items),
    decreases items.len() - i,
{
    if i < items.len() {
        lemma_tj_bytes_prefix(items, i + 1);
        assert(items.take(i + 1).drop_last() =~= items.take(i));
    } else {
        assert(items.take(i) =~= items);
    }
}

pub open spec fn fonts_wf(fonts: Seq<(String, FontDecoder)>) -> bool {
    forall|i: int| 0 <= i < fonts.len() ==> decoder_wf(#[trigger] fonts[i].1)
}

/// Extracted text with its code counters.
#[derive(Debug)]
pub struct ExtractedText {
    pub text: String,
    pub total_codes: u64,
    pub unmapped_codes: u64,
}

/// The state of the exec loop: its text, last character, counters, first
/// `BT` flag and active font.
struct Extractor {
    text: String,
    ends_line: bool,
    total: u64,
    unmapped: u64,
    first_bt: bool,
    font: Option<usize>,
}

spec fn tracks(x: Extractor, st: ExtractState) -> bool {
    &&& x.text@ == st.text
    &&& x.ends_line == (st.text.len() > 0 && st.text.last() == '\n')
    &&& x.total == st.total
    &&& x.unmapped == st.unmapped
    &&& x.first_bt == st.first_bt
    &&& match x.font {
        Some(i) => st.font == Some(i as int),
        None => st.font is None,
    }
    &&& x.unmapped <= x.total
}

fn find_font(fonts: &Vec<(String, FontDecoder)>, name: &str) -> (r: Option<usize>)
    ensures
        match r {
            Some(i) => font_lookup(fonts@, name@) == Some(i as int) && i < fonts@.len(),
            None => font_lookup(fonts@, name@) is None,
        },
{
    let mut i: usize = fonts.len();
    assert(fonts@.take(fonts@.len() as int) =~= fonts@);
    while i > 0
        invariant
            i <= fonts@.len(),
            font_lookup(fonts@, name@) == font_lookup(fonts@.take(i as int), name@),
        decreases i,
    {
        assert(fonts@.take(i as int).drop_last() =~= fonts@.take(i - 1));
        assert(fonts@.take(i as int).last() == fonts@[i - 1]);
        if str_eq(fonts[i - 1].0.as_str(), name) {
            return Some(i - 1);
        }
        i = i - 1;
    }
    assert(fonts@.take(0) =~= Seq::<(String, FontDecoder)>::empty());
    None
}

fn push_tracked(x: &mut Extractor, c: char, Ghost(st): Ghost<ExtractState>)
    requires
        tracks(*old(x), st),
    ensures
        tracks(*final(x), push_text(st, c)),
{
    push_char(&mut x.text, c);
    x.ends_line = c == '\n';
}

fn show_tracked(
    x: &mut Extractor,
    bytes: &[u8],
    fonts: &Vec<(String, FontDecoder)>,
    Ghost(st): Ghost<ExtractState>,
)
    requires
        tracks(*old(x), st),
        fonts_wf(fonts@),
        st.font matches Some(i) ==> 0 <= i < fonts@.len(),
        old(x).total + bytes@.len() <= u64::MAX,
    ensures
        tracks(*final(x), show(st, bytes@, fonts@)),
        final(x).font == old(x).font,
        final(x).total <= old(x).total + bytes@.len(),
{
    let mut chunk = String::new();
    let font = match x.font {
        Some(i) => Some(&fonts[i].1),
        None => None,
    };
    proof {
        if let Some(i) = st.font {
            assert(decoder_wf(fonts@[i].1));
        }
    }
    emit_show_string(&mut chunk, bytes, font, &mut x.total, &mut x.unmapped);
    let chars = str_chars(chunk.as_str());
    if chars.len() > 0 {
        x.ends_line = chars[chars.len() - 1] == '\n';
    }
    let ghost before = x.text@;
    push_str(&mut x.text, chunk.as_str());
    proof {
        let ps = show_pieces(bytes@, active_decoder(fonts@, st.font));
        assert(chunk@ =~= joined(ps));
        if chars@.len() > 0 {
            assert((before + chunk@).last() == chunk@.last());
        } else {
            assert(before + chunk@ =~= before);
        }
    }
}

/// Extracts the text of a page's content operators, decoding each shown
/// string through the font the last `Tf` selected from `fonts` (pairs of a
/// resource name and its decoder).
pub fn extract_text(ops: &Vec<TextOp>, fonts: &Vec<(String, FontDecoder)>) -> (r: ExtractedText)
    requires
        fonts_wf(fonts@),
        ops_bytes(ops@) <= u64::MAX,
    ensures
        ({
            let st = extract_fold(ops@, fonts@);
            &&& r.text@ == st.text
            &&& r.total_codes == st.total
            &&& r.unmapped_codes == st.unmapped
        }),
{
    let mut x = Extractor {
        text: String::new(),
        ends_line: false,
        total: 0,
        unmapped: 0,
        first_bt: true,
        font: None,
    };
    assert(x.text@ =~= Seq::<char>::empty());
    let mut i: usize = 0;
    assert(ops@.take(0) =~= Seq::<TextOp>::empty());
    while i < ops.len()
        invariant
            i <= ops@.len(),
            fonts_wf(fonts@),
            ops_bytes(ops@) <= u64::MAX,
            tracks(x, extract_fold(ops@.take(i as int), fonts@)),
            x.total <= ops_bytes(ops@.take(i as int)),
            extract_fold(ops@.take(i as int), fonts@).font matches Some(k) ==> 0 <= k < fonts@.len(),
        decreases ops.len() - i,
    {
        let ghost st = extract_fold(ops@.take(i as int), fonts@);
        proof {
            assert(ops@.take(i + 1).drop_last() =~= ops@.take(i as int));
            assert(ops@.take(i + 1).last() == ops@[i as int]);
            lemma_ops_bytes_prefix(ops@, i + 1);
        }
        match &ops[i] {
            TextOp::BeginText => {
                if !x.first_bt && !x.ends_line {
                    push_tracked(&mut x, '\n', Ghost(st));
                }
                x.first_bt = false;
            },
            TextOp::SetFont(Some(n)) => {
                x.font = find_font(fonts, n.as_str());
            },
            TextOp::MoveText(ty) => {
                let down = match ty {
                    TyOperand::Int(n) => *n < 0,
                    TyOperand::Real { negative } => *negative,
                    TyOperand::Other => false,
                };
                if down {
                    push_tracked(&mut x, '\n', Ghost(st));
                }
            },
            TextOp::NextLine => {
                push_tracked(&mut x, '\n', Ghost(st));
            },
            TextOp::Show(b) => {
                if let Some(bytes) = b {
                    show_tracked(&mut x, bytes.as_slice(), fonts, Ghost(st));
                }
            },
            TextOp::ShowArray(Some(items)) => {
                let mut k: usize = 0;
                assert(items@.take(0) =~= Seq::<TjItem>::empty());
                while k < items.len()
                    invariant
                        k <= items@.len(),
                        fonts_wf(fonts@),
                        tracks(x, tj_fold(st, items@.take(k as int), fonts@)),
                        x.total <= st.total + tj_bytes(items@.take(k as int)),
                        st.total + tj_bytes(items@) <= u64::MAX,
                        tj_fold(st, items@.take(k as int), fonts@).font == st.font,
                        st.font matches Some(j) ==> 0 <= j < fonts@.len(),
                    decreases items.len() - k,
                {
                    let ghost sk = tj_fold(st, items@.take(k as int), fonts@);
                    proof {
                        assert(items@.take(k + 1).drop_last() =~= items@.take(k as int));
                        assert(items@.take(k + 1).last() == items@[k as int]);
                        lemma_tj_bytes_prefix(items@, k + 1);
                    }
                    match &items[k] {
                        TjItem::Text(bytes) => {
                            show_tracked(&mut x, bytes.as_slice(), fonts, Ghost(sk));
                        },
                        TjItem::Int(n) => {
                            if *n < -100 {
                                push_tracked(&mut x, ' ', Ghost(sk));
                            }
                        },
                        TjItem::Real { below_minus_100 } => {
                            if *below_minus_100 {
                                push_tracked(&mut x, ' ', Ghost(sk));
                            }
                        },
                        TjItem::Other => {},
                    }
                    k = k + 1;
                }
                assert(items@.take(k as int) =~= items@);
            },
            TextOp::NextLineShow(b) => {
                push_tracked(&mut x, '\n', Ghost(st));
                if let Some(bytes) = b {
                    show_tracked(&mut x, bytes.as_slice(), fonts, Ghost(push_text(st, '\n')));
                }
            },
            TextOp::NextLineShowSpaced(b) => {
                push_tracked(&mut x, '\n', Ghost(st));
                if let Some(bytes) = b {
                    show_tracked(&mut x, bytes.as_slice(), fonts, Ghost(push_text(st, '\n')));
                }
            },
            _ => {},
        }
        i = i + 1;
    }
    assert(ops@.take(ops@.len() as int) =~= ops@);
    ExtractedText { text: x.text, total_codes: x.total, unmapped_codes: x.unmapped }
}

proof fn lemma_tj_bytes_le(items: Seq<TjItem>, i: int)
    requires
        0 <= i <= items.len(),
    ensures
        tj_bytes(items.take(i)) <= tj_bytes(items),
{
    lemma_tj_bytes_prefix(items, i);
}

/// Whether the bytes that `ops` show fit the 64-bit code counters, as
/// `extract_text` needs.
pub fn shown_bytes_fit(ops: &Vec<TextOp>) -> (r: bool)
    ensures
        r == (ops_bytes(ops@) <= u64::MAX),
{
    let mut sum: u64 = 0;
    let mut i: usize = 0;
    assert(ops@.take(0) =~= Seq::<TextOp>::empty());
    while i < ops.len()
        invariant
            i <= ops@.len(),
            sum == ops_bytes(ops@.take(i as int)),
        decreases ops.len() - i,
    {
        assert(ops@.take(i + 1).drop_last() =~= ops@.take(i as int));
        assert(ops@.take(i + 1).last() == ops@[i as int]);
        let n: u64 = match &ops[i] {
            TextOp::Show(Some(b)) => b.len() as u64,
            TextOp::NextLineShow(Some(b)) => b.len() as u64,
            TextOp::NextLineShowSpaced(Some(b)) => b.len() as u64,
            TextOp::ShowArray(Some(items)) => {
                let mut t: u64 = 0;
                let mut k: usize = 0;
                assert(items@.take(0) =~= Seq::<TjItem>::empty());
                while k < items.len()
                    invariant
                        k <= items@.len(),
                        t == tj_bytes(items@.take(k as int)),
                        i < ops@.len(),
                        sum == ops_bytes(ops@.take(i as int)),
                        op_bytes(ops@[i as int]) == tj_bytes(items@),
                        ops@.take(i + 1).drop_last() == ops@.take(i as int),
                        ops@.take(i + 1).last() == ops@[i as int],
                    decreases items.len() - k,
                {
                    assert(items@.take(k + 1).drop_last() =~= items@.take(k as int));
                    assert(items@.take(k + 1).last() == items@[k as int]);
                    if let TjItem::Text(b) = &items[k] {
                        if b.len() as u64 > u64::MAX - t {
                            proof {
                                lemma_tj_bytes_le(items@, k + 1);
                                lemma_ops_bytes_prefix(ops@, i + 1);
                            }
                            return false;
                        }
                        t = t + b.len() as u64;
                    }
                    k = k + 1;
                }
                assert(items@.take(k as int) =~= items@);
                t
            },
            _ => 0,
        };
        if n > u64::MAX - sum {
            proof {
                lemma_ops_bytes_prefix(ops@, i + 1);
            }
            return false;
        }
        sum = sum + n;
        i = i + 1;
    }
    assert(ops@.take(ops@.len() as int) =~= ops@);
    true
}

} // verus!
