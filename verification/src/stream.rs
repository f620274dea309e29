//! Stream-filter decoders and byte dumps.
use vstd::prelude::*;
use crate::textbuf::{push_char, push_str};
use std::borrow::Cow;
use std::io::Read;

verus! {

/// ASCII white space as `u8::is_ascii_whitespace` sees it.
pub open spec fn is_ascii_ws(b: u8) -> bool {
    b == 0x20 || b == 0x09 || b == 0x0a || b == 0x0c || b == 0x0d
}

/// A byte that reads as text: ASCII letter, digit, punctuation or white space.
pub open spec fn is_text_byte(b: u8) -> bool {
    (0x21 <= b && b <= 0x7e) || is_ascii_ws(b)
}

/// Whether a stream holds any byte that is not plain ASCII text.
pub fn is_binary_stream(content: &[u8]) -> (r: bool)
    ensures
        r == exists|i: int| 0 <= i < content@.len() && !is_text_byte(#[trigger] content@[i]),
{
    let mut i: usize = 0;
    while i < content.len()
        invariant
            i <= content@.len(),
            forall|j: int| 0 <= j < i ==> is_text_byte(#[trigger] content@[j]),
        decreases content.len() - i,
    {
        let b = content[i];
        if !((0x21 <= b && b <= 0x7e) || b == 0x20 || b == 0x09 || b == 0x0a || b == 0x0c || b == 0x0d) {
            assert(!is_text_byte(content@[i as int]));
            return true;
        }
        i = i + 1;
    }
    false
}

/// `s` with its ASCII white space removed.
pub open spec fn drop_ws(s: Seq<u8>) -> Seq<u8>
    decreases s.len(),
{
    if s.len() == 0 {
        s
    } else if is_ascii_ws(s.last()) {
        drop_ws(s.drop_last())
    } else {
        drop_ws(s.drop_last()).push(s.last())
    }
}

/// A copy of `data` without ASCII white space.
fn strip_ascii_ws(data: &[u8]) -> (r: Vec<u8>)
    ensures
        r@ == drop_ws(data@),
{
    let mut r: Vec<u8> = Vec::new();
    let mut i: usize = 0;
    while i < data.len()
        invariant
            i <= data@.len(),
            r@ == drop_ws(data@.take(i as int)),
        decreases data.len() - i,
    {
        let b = data[i];
        assert(data@.take(i + 1).drop_last() =~= data@.take(i as int));
        if !(b == 0x20 || b == 0x09 || b == 0x0a || b == 0x0c || b == 0x0d) {
            r.push(b);
        }
        i = i + 1;
    }
    assert(data@.take(data@.len() as int) =~= data@);
    r
}

/// The value of a hexadecimal digit.
pub open spec fn hex_val(b: u8) -> Option<u8> {
    if 0x30 <= b && b <= 0x39 {
        Some((b - 0x30) as u8)
    } else if 0x61 <= b && b <= 0x66 {
        Some((b - 0x61 + 10) as u8)
    } else if 0x41 <= b && b <= 0x46 {
        Some((b - 0x41 + 10) as u8)
    } else {
        None
    }
}

pub fn hex_digit(b: u8) -> (r: Option<u8>)
    ensures
        r == hex_val(b),
{
    if 0x30 <= b && b <= 0x39 {
        Some(b - 0x30)
    } else if 0x61 <= b && b <= 0x66 {
        Some(b - 0x61 + 10)
    } else if 0x41 <= b && b <= 0x46 {
        Some(b - 0x41 + 10)
    } else {
        None
    }
}

/// The lower-case hexadecimal digit for `d < 16`.
pub open spec fn hex_char(d: nat) -> char {
    if d < 10 {
        ((d + 48) as u8) as char
    } else {
        ((d + 87) as u8) as char
    }
}

/// Two lower-case hexadecimal digits of a byte.
pub open spec fn hex2(b: u8) -> Seq<char> {
    seq![hex_char((b / 16) as nat), hex_char((b % 16) as nat)]
}

fn hex_char_exec(d: u8) -> (c: char)
    requires
        d < 16,
    ensures
        c == hex_char(d as nat),
{
    if d < 10 {
        (d + 48) as char
    } else {
        (d + 87) as char
    }
}

/// Appends the two lower-case hexadecimal digits of `b`.
fn push_hex2(s: &mut String, b: u8)
    ensures
        final(s)@ == old(s)@ + hex2(b),
{
    push_char(s, hex_char_exec(b / 16));
    push_char(s, hex_char_exec(b % 16));
    assert(final(s)@ =~= old(s)@ + hex2(b));
}

/// `prefix` followed by the two hexadecimal digits of `b`.
fn byte_msg(prefix: &str, b: u8) -> (r: String)
    ensures
        r@ == prefix@ + hex2(b),
{
    let mut r = String::new();
    push_str(&mut r, prefix);
    push_hex2(&mut r, b);
    r
}

/// `acc` followed by what `r` holds, or `r`'s error.
pub open spec fn then_bytes<E>(acc: Seq<u8>, r: Result<Seq<u8>, E>) -> Result<Seq<u8>, E> {
    match r {
        Err(e) => Err(e),
        Ok(rest) => Ok(acc + rest),
    }
}

// ── ASCIIHexDecode ──────────────────────────────────────────────────

/// Decoding of hexadecimal digit pairs (white space already removed); a lone
/// final digit stands for its high nibble. The error is the first byte that is
/// not a hexadecimal digit.
pub open spec fn hex_pairs(s: Seq<u8>) -> Result<Seq<u8>, u8>
    decreases s.len(),
{
    if s.len() == 0 {
        Ok(Seq::empty())
    } else {
        match hex_val(s[0]) {
            None => Err(s[0]),
            Some(hi) => if s.len() >= 2 {
                match hex_val(s[1]) {
                    None => Err(s[1]),
                    Some(lo) => then_bytes(seq![(hi * 16 + lo) as u8], hex_pairs(s.skip(2))),
                }
            } else {
                Ok(seq![(hi * 16) as u8])
            },
        }
    }
}

/// The hexadecimal payload of an ASCIIHexDecode stream: white space removed,
/// then one trailing `>` end marker dropped.
pub open spec fn ahex_payload(data: Seq<u8>) -> Seq<u8> {
    let c = drop_ws(data);
    if c.len() >= 1 && c.last() == 0x3e {
        c.drop_last()
    } else {
        c
    }
}

/// What `decode_asciihex` gives for `data`.
pub open spec fn spec_asciihex(data: Seq<u8>) -> Result<Seq<u8>, Seq<char>> {
    match hex_pairs(ahex_payload(data)) {
        Ok(out) => Ok(out),
        Err(b) => Err("ASCIIHexDecode: invalid hex character 0x"@ + hex2(b)),
    }
}

pub fn decode_asciihex(data: &[u8]) -> (r: Result<Vec<u8>, String>)
    ensures
        match spec_asciihex(data@) {
            Ok(out) => r is Ok && r->Ok_0@ == out,
            Err(msg) => r is Err && r->Err_0@ == msg,
        },
{
    let cleaned = strip_ascii_ws(data);
    let mut len = cleaned.len();
    if len >= 1 && cleaned[len - 1] == 0x3e {
        len = len - 1;
    }
    let ghost input = cleaned@.take(len as int);
    assert(input =~= ahex_payload(data@));
    let mut result: Vec<u8> = Vec::new();
    let mut i: usize = 0;
    assert(input.skip(0) =~= input);
    assert(result@ + Seq::<u8>::empty() =~= result@);
    while i < len
        invariant
            len <= cleaned@.len(),
            input == cleaned@.take(len as int),
            input == ahex_payload(data@),
            i <= len,
            hex_pairs(input) == then_bytes(result@, hex_pairs(input.skip(i as int))),
        decreases len - i,
    {
        let ghost rest = input.skip(i as int);
        assert(rest[0] == cleaned@[i as int]);
        let hi = match hex_digit(cleaned[i]) {
            Some(v) => v,
            None => {
                return Err(byte_msg("ASCIIHexDecode: invalid hex character 0x", cleaned[i]));
            },
        };
        let lo = if i + 1 < len {
            assert(rest[1] == cleaned@[i + 1]);
            match hex_digit(cleaned[i + 1]) {
                Some(v) => v,
                None => {
                    return Err(byte_msg("ASCIIHexDecode: invalid hex character 0x", cleaned[i + 1]));
                },
            }
        } else {
            0
        };
        let ghost before = result@;
        result.push(hi * 16 + lo);
        proof {
            if i + 1 < len {
                assert(rest.skip(2) =~= input.skip(i + 2));
                let nr = hex_pairs(input.skip(i + 2));
                if nr is Ok {
                    assert(before + (seq![(hi * 16 + lo) as u8] + nr->Ok_0) =~= result@ + nr->Ok_0);
                }
            } else {
                assert(input.skip(len as int) =~= Seq::<u8>::empty());
                assert(before + seq![(hi * 16) as u8] =~= result@ + Seq::<u8>::empty());
            }
        }
        if i + 1 < len {
            i = i + 2;
        } else {
            i = len;
        }
    }
    assert(input.skip(len as int) =~= Seq::<u8>::empty());
    assert(result@ + Seq::<u8>::empty() =~= result@);
    Ok(result)
}

/// The upper-case hexadecimal digit character of `d < 16`.
pub open spec fn hex_digit_byte(d: nat) -> u8 {
    if d < 10 {
        (48 + d) as u8
    } else {
        (55 + d) as u8
    }
}

/// The hexadecimal text of `x`: two digits per byte, high nibble first.
pub open spec fn hex_text(x: Seq<u8>) -> Seq<u8>
    decreases x.len(),
{
    if x.len() == 0 {
        Seq::empty()
    } else {
        seq![hex_digit_byte((x[0] / 16) as nat), hex_digit_byte((x[0] % 16) as nat)] + hex_text(x.skip(1))
    }
}

proof fn lemma_hex_pairs_of_text(x: Seq<u8>, tail: Seq<u8>)
    requires
        tail.len() == 0 || (tail.len() == 1 && hex_val(tail[0]) is Some),
    ensures
        hex_pairs(hex_text(x) + tail) == then_bytes(
            x,
            if tail.len() == 0 {
                Ok::<Seq<u8>, u8>(Seq::empty())
            } else {
                Ok(seq![(hex_val(tail[0])->0 * 16) as u8])
            },
        ),
        forall|k: int| 0 <= k < hex_text(x).len() ==> hex_val(#[trigger] hex_text(x)[k]) is Some,
    decreases x.len(),
{
    let s = hex_text(x) + tail;
    if x.len() == 0 {
        assert(s =~= tail);
        assert(x =~= Seq::<u8>::empty());
        if tail.len() == 1 {
            assert(Seq::<u8>::empty() + seq![(hex_val(tail[0])->0 * 16) as u8] =~= seq![
                (hex_val(tail[0])->0 * 16) as u8,
            ]);
        } else {
            assert(Seq::<u8>::empty() + Seq::<u8>::empty() =~= Seq::<u8>::empty());
        }
    } else {
        let hi = (x[0] / 16) as nat;
        let lo = (x[0] % 16) as nat;
        assert(hex_val(hex_digit_byte(hi)) == Some(hi as u8));
        assert(hex_val(hex_digit_byte(lo)) == Some(lo as u8));
        lemma_hex_pairs_of_text(x.skip(1), tail);
        assert(s.skip(2) =~= hex_text(x.skip(1)) + tail);
        assert(s[0] == hex_digit_byte(hi) && s[1] == hex_digit_byte(lo));
        assert((hi * 16 + lo) as u8 == x[0]);
        assert(x =~= seq![x[0]] + x.skip(1));
        let t = if tail.len() == 0 {
            Ok::<Seq<u8>, u8>(Seq::empty())
        } else {
            Ok(seq![(hex_val(tail[0])->0 * 16) as u8])
        };
        assert(seq![x[0]] + (x.skip(1) + t->Ok_0) =~= x + t->Ok_0);
        let h = hex_text(x);
        assert forall|k: int| 0 <= k < h.len() implies hex_val(#[trigger] h[k]) is Some by {
            if k >= 2 {
                assert(h[k] == hex_text(x.skip(1))[k - 2]);
            }
        }
    }
}

/// ASCIIHexDecode undoes hexadecimal encoding: for every byte string `x`,
/// decoding its two-digit-per-byte text gives `x` back, with or without the
/// `>` end marker, and a lone final digit `d` adds the byte `d * 16`.
pub proof fn law_asciihex_round_trip(x: Seq<u8>, d: nat)
    requires
        d < 16,
    ensures
        spec_asciihex(hex_text(x)) == Ok::<Seq<u8>, Seq<char>>(x),
        spec_asciihex(hex_text(x) + seq![0x3eu8]) == Ok::<Seq<u8>, Seq<char>>(x),
        spec_asciihex(hex_text(x) + seq![hex_digit_byte(d), 0x3eu8]) == Ok::<Seq<u8>, Seq<char>>(
            x.push((d * 16) as u8),
        ),
{
    let h = hex_text(x);
    let e = Seq::<u8>::empty();
    assert(h + e =~= h);
    lemma_hex_pairs_of_text(x, e);
    assert(x + Seq::<u8>::empty() =~= x);
    assert(hex_val(hex_digit_byte(d)) == Some(d as u8));
    lemma_hex_pairs_of_text(x, seq![hex_digit_byte(d)]);
    assert(x + seq![(d * 16) as u8] =~= x.push((d * 16) as u8));
    let e1 = h + seq![0x3eu8];
    let e2 = h + seq![hex_digit_byte(d), 0x3eu8];
    assert forall|k: int| 0 <= k < h.len() implies !is_ascii_ws(#[trigger] h[k]) by {
        assert(hex_val(h[k]) is Some);
    }
    assert forall|k: int| 0 <= k < e1.len() implies !is_ascii_ws(#[trigger] e1[k]) by {
        if k < h.len() {
            assert(e1[k] == h[k]);
            assert(hex_val(h[k]) is Some);
        }
    }
    assert forall|k: int| 0 <= k < e2.len() implies !is_ascii_ws(#[trigger] e2[k]) by {
        if k < h.len() {
            assert(e2[k] == h[k]);
            assert(hex_val(h[k]) is Some);
        }
    }
    lemma_drop_ws_none(h);
    lemma_drop_ws_none(e1);
    lemma_drop_ws_none(e2);
    if h.len() >= 1 {
        assert(hex_val(h[h.len() - 1]) is Some);
    }
    assert(ahex_payload(hex_text(x)) == h);
    assert(e1.drop_last() =~= h);
    assert(e2.drop_last() =~= h + seq![hex_digit_byte(d)]);
}

// ── RunLengthDecode ─────────────────────────────────────────────────

/// What `decode_run_length` gives for `d`: a length byte `L <= 127` copies the
/// next `L + 1` bytes, `L == 128` ends the data, and `L > 128` repeats the
/// next byte `257 - L` times.
pub open spec fn spec_run_length(d: Seq<u8>) -> Result<Seq<u8>, Seq<char>>
    decreases d.len(),
{
    if d.len() == 0 {
        Ok(Seq::empty())
    } else {
        let l = d[0];
        if l <= 127 {
            let count = l + 1;
            if 1 + count > d.len() {
                Err("RunLengthDecode: truncated literal run"@)
            } else {
                then_bytes(d.subrange(1, 1 + count), spec_run_length(d.skip(1 + count)))
            }
        } else if l == 128 {
            Ok(Seq::empty())
        } else if d.len() < 2 {
            Err("RunLengthDecode: truncated repeat run"@)
        } else {
            then_bytes(Seq::new((257 - l) as nat, |k: int| d[1]), spec_run_length(d.skip(2)))
        }
    }
}

pub fn decode_run_length(data: &[u8]) -> (r: Result<Vec<u8>, String>)
    ensures
        match spec_run_length(data@) {
            Ok(out) => r is Ok && r->Ok_0@ == out,
            Err(msg) => r is Err && r->Err_0@ == msg,
        },
{
    let mut result: Vec<u8> = Vec::new();
    let mut i: usize = 0;
    assert(data@.skip(0) =~= data@);
    assert(result@ + Seq::<u8>::empty() =~= result@);
    while i < data.len()
        invariant_except_break
            i <= data@.len(),
            spec_run_length(data@) == then_bytes(result@, spec_run_length(data@.skip(i as int))),
        ensures
            spec_run_length(data@) == Ok::<Seq<u8>, Seq<char>>(result@),
        decreases data.len() - i,
    {
        assert(i < data.len() ==> data@.skip(i as int).len() > 0);
        let ghost rest = data@.skip(i as int);
        let ghost before = result@;
        let length = data[i];
        assert(rest[0] == length);
        if length <= 127 {
            let count = length as usize + 1;
            if count > data.len() - i - 1 {
                return Err("RunLengthDecode: truncated literal run".to_string());
            }
            let mut k: usize = 0;
            while k < count
                invariant
                    k <= count,
                    count == length + 1,
                    i + 1 + count <= data.len(),
                    result@ == before + data@.subrange(i + 1, i + 1 + k),
                decreases count - k,
            {
                result.push(data[i + 1 + k]);
                assert(data@.subrange(i + 1, i + 1 + k + 1) =~= data@.subrange(i + 1, i + 1 + k).push(
                    data@[i + 1 + k],
                ));
                k = k + 1;
            }
            proof {
                assert(rest.subrange(1, 1 + count) =~= data@.subrange(i + 1, i + 1 + count));
                assert(rest.skip(1 + count) =~= data@.skip(i + 1 + count));
                let nr = spec_run_length(data@.skip(i + 1 + count));
                if nr is Ok {
                    assert(before + (data@.subrange(i + 1, i + 1 + count) + nr->Ok_0) =~= result@
                        + nr->Ok_0);
                }
            }
            i = i + 1 + count;
        } else if length == 128 {
            assert(result@ + Seq::<u8>::empty() =~= result@);
            break;
        } else {
            if i + 1 >= data.len() {
                return Err("RunLengthDecode: truncated repeat run".to_string());
            }
            let count = 257 - length as usize;
            let byte = data[i + 1];
            assert(rest[1] == byte);
            let mut k: usize = 0;
            while k < count
                invariant
                    k <= count,
                    result@ == before + Seq::new(k as nat, |j: int| byte),
                decreases count - k,
            {
                result.push(byte);
                assert(Seq::new((k + 1) as nat, |j: int| byte) =~= Seq::new(k as nat, |j: int| byte).push(
                    byte,
                ));
                k = k + 1;
            }
            proof {
                assert(rest.skip(2) =~= data@.skip(i + 2));
                let run = Seq::new(count as nat, |j: int| byte);
                assert(run =~= Seq::new((257 - length) as nat, |j: int| rest[1]));
                let nr = spec_run_length(data@.skip(i + 2));
                if nr is Ok {
                    assert(before + (run + nr->Ok_0) =~= result@ + nr->Ok_0);
                }
            }
            i = i + 2;
        }
    }
    Ok(result)
}

/// The three kinds of run of RunLengthDecode, each followed by any data
/// `rest`: a length byte `n - 1` (for `1 <= n <= 128`) copies the `n` bytes
/// after it, a length byte `257 - k` (for `2 <= k <= 128`) repeats the byte
/// after it `k` times, and the length byte 128 ends the data whatever
/// follows.
pub proof fn law_run_length_runs(lit: Seq<u8>, k: nat, c: u8, rest: Seq<u8>)
    requires
        1 <= lit.len() <= 128,
        2 <= k <= 128,
    ensures
        spec_run_length(seq![(lit.len() - 1) as u8] + lit + rest) == then_bytes(
            lit,
            spec_run_length(rest),
        ),
        spec_run_length(seq![(257 - k) as u8, c] + rest) == then_bytes(
            Seq::new(k, |i: int| c),
            spec_run_length(rest),
        ),
        spec_run_length(seq![128u8] + rest) == Ok::<Seq<u8>, Seq<char>>(Seq::empty()),
{
    let d1 = seq![(lit.len() - 1) as u8] + lit + rest;
    let n = lit.len() as int;
    assert(d1[0] == (lit.len() - 1) as u8);
    assert(d1.subrange(1, 1 + n) =~= lit);
    assert(d1.skip(1 + n) =~= rest);
    let d2 = seq![(257 - k) as u8, c] + rest;
    assert(d2[0] == (257 - k) as u8 && d2[1] == c);
    assert(d2.skip(2) =~= rest);
    assert(Seq::new((257 - d2[0]) as nat, |i: int| d2[1]) =~= Seq::new(k, |i: int| c));
    let d3 = seq![128u8] + rest;
    assert(d3[0] == 128u8);
}

// ── ASCII85Decode ───────────────────────────────────────────────────

/// The base-85 value of digits `d` (each as the byte minus `!`).
pub open spec fn base85(d: Seq<u8>) -> nat
    decreases d.len(),
{
    if d.len() == 0 {
        0
    } else {
        base85(d.drop_last()) * 85 + ((d.last() - 33) as nat)
    }
}

/// A chunk padded with `u` (the digit 84) to five digits.
pub open spec fn pad85(c: Seq<u8>) -> Seq<u8> {
    Seq::new(5, |k: int| if k < c.len() { c[k] } else { 0x75u8 })
}

/// The `j`-th of the low four bytes of `v`, most significant first.
pub open spec fn low_byte(v: nat, j: int) -> u8 {
    let w: nat = if j == 0 {
        16777216
    } else if j == 1 {
        65536
    } else if j == 2 {
        256
    } else {
        1
    };
    ((v / w) % 256) as u8
}

/// The first bad byte (outside `!`..=`u`) of a chunk.
pub open spec fn first_bad85(c: Seq<u8>) -> Option<u8>
    decreases c.len(),
{
    if c.len() == 0 {
        None
    } else if !(0x21 <= c[0] && c[0] <= 0x75) {
        Some(c[0])
    } else {
        first_bad85(c.drop_first())
    }
}

/// Base-85 decoding (white space and delimiters already removed): `z` is four
/// zero bytes; every other group of up to five digits gives one byte fewer than
/// its digit count (four for a full group). The error is the first bad byte.
pub open spec fn a85_groups(s: Seq<u8>) -> Result<Seq<u8>, u8>
    decreases s.len(),
{
    if s.len() == 0 {
        Ok(Seq::empty())
    } else if s[0] == 0x7a {
        then_bytes(seq![0u8, 0u8, 0u8, 0u8], a85_groups(s.skip(1)))
    } else {
        let n: int = if s.len() < 5 {
            s.len() as int
        } else {
            5
        };
        let chunk = s.take(n);
        match first_bad85(chunk) {
            Some(b) => Err(b),
            None => {
                let v = base85(pad85(chunk));
                let out_len: int = if n == 5 {
                    4
                } else {
                    n - 1
                };
                then_bytes(Seq::new(out_len as nat, |j: int| low_byte(v, j)), a85_groups(s.skip(n)))
            },
        }
    }
}

/// The base-85 payload of an ASCII85Decode stream: white space removed, one
/// trailing `~>` end marker dropped, then one leading `<~` dropped.
pub open spec fn a85_payload(data: Seq<u8>) -> Seq<u8> {
    let c = drop_ws(data);
    let c1 = if c.len() >= 2 && c[c.len() - 2] == 0x7e && c[c.len() - 1] == 0x3e {
        c.take(c.len() - 2)
    } else {
        c
    };
    if c1.len() >= 2 && c1[0] == 0x3c && c1[1] == 0x7e {
        c1.skip(2)
    } else {
        c1
    }
}

/// What `decode_ascii85` gives for `data`.
pub open spec fn spec_ascii85(data: Seq<u8>) -> Result<Seq<u8>, Seq<char>> {
    match a85_groups(a85_payload(data)) {
        Ok(out) => Ok(out),
        Err(b) => Err("ASCII85Decode: invalid character 0x"@ + hex2(b)),
    }
}

proof fn lemma_base85_bound(d: Seq<u8>)
    requires
        forall|k: int| 0 <= k < d.len() ==> 0x21 <= #[trigger] d[k] <= 0x75,
    ensures
        base85(d) < pow85(d.len()),
    decreases d.len(),
{
    if d.len() > 0 {
        lemma_base85_bound(d.drop_last());
        assert(base85(d) <= (pow85((d.len() - 1) as nat) - 1) * 85 + 84);
    }
}

/// `85` to the power `k`.
pub open spec fn pow85(k: nat) -> nat
    decreases k,
{
    if k == 0 {
        1
    } else {
        pow85((k - 1) as nat) * 85
    }
}

// ── ASCII85 encoding, the inverse that decoding is checked against ──

/// Byte `i` of `b`, or zero past its end.
pub open spec fn byte_or_zero(b: Seq<u8>, i: int) -> nat {
    if 0 <= i < b.len() {
        b[i] as nat
    } else {
        0
    }
}

/// The big-endian value of the first four bytes of `b`, padded with zero
/// bytes to four.
pub open spec fn be32(b: Seq<u8>) -> nat {
    byte_or_zero(b, 0) * 16777216 + byte_or_zero(b, 1) * 65536 + byte_or_zero(b, 2) * 256
        + byte_or_zero(b, 3)
}

/// Digit `k` (of five, most significant first) of `v` written in base 85,
/// as the character `!` plus the digit.
pub open spec fn a85_digit(v: nat, k: int) -> u8 {
    let w: nat = if k == 0 {
        52200625
    } else if k == 1 {
        614125
    } else if k == 2 {
        7225
    } else if k == 3 {
        85
    } else {
        1
    };
    ((v / w) % 85 + 33) as u8
}

/// The ASCII85 text of one group of one to four bytes: `z` for four zero
/// bytes, else the first `b.len() + 1` of the five base-85 digits of the
/// group's value with the missing bytes taken as zero.
pub open spec fn a85_encode_group(b: Seq<u8>) -> Seq<u8> {
    if b.len() == 4 && be32(b) == 0 {
        seq![0x7au8]
    } else {
        Seq::new(b.len() + 1, |k: int| a85_digit(be32(b), k))
    }
}

/// The ASCII85 encoding of `x`: its groups of four bytes in turn, the last
/// group shorter when the length is not a multiple of four.
pub open spec fn a85_encode(x: Seq<u8>) -> Seq<u8>
    decreases x.len(),
{
    if x.len() == 0 {
        Seq::empty()
    } else if x.len() < 4 {
        a85_encode_group(x)
    } else {
        a85_encode_group(x.take(4)) + a85_encode(x.skip(4))
    }
}

/// The five digits of a 32-bit value add back up to it.
proof fn lemma_a85_digits(v: nat)
    requires
        v < 4294967296,
    ensures
        forall|k: int| 0 <= k < 5 ==> 33 <= #[trigger] a85_digit(v, k) <= 117,
        v == (a85_digit(v, 0) - 33) * 52200625 + (a85_digit(v, 1) - 33) * 614125 + (a85_digit(v, 2)
            - 33) * 7225 + (a85_digit(v, 3) - 33) * 85 + (a85_digit(v, 4) - 33),
{
    let q1 = v / 85;
    let q2 = v / 7225;
    let q3 = v / 614125;
    let q4 = v / 52200625;
    assert(q1 / 85 == q2);
    assert(q2 / 85 == q3);
    assert(q3 / 85 == q4);
    assert(q4 < 85);
    assert(v == q1 * 85 + v % 85);
    assert(q1 == q2 * 85 + q1 % 85);
    assert(q2 == q3 * 85 + q2 % 85);
    assert(q3 == q4 * 85 + q3 % 85);
    assert(a85_digit(v, 0) == q4 % 85 + 33);
    assert(a85_digit(v, 1) == q3 % 85 + 33);
    assert(a85_digit(v, 2) == q2 % 85 + 33);
    assert(a85_digit(v, 3) == q1 % 85 + 33);
    assert(a85_digit(v, 4) == v % 85 + 33);
}

/// The value of five digits.
proof fn lemma_base85_five(s: Seq<u8>)
    requires
        s.len() == 5,
        forall|k: int| 0 <= k < 5 ==> 33 <= #[trigger] s[k],
    ensures
        base85(s) == (s[0] - 33) * 52200625 + (s[1] - 33) * 614125 + (s[2] - 33) * 7225 + (s[3] - 33)
            * 85 + (s[4] - 33),
{
    let s4 = s.drop_last();
    let s3 = s4.drop_last();
    let s2 = s3.drop_last();
    let s1 = s2.drop_last();
    let s0 = s1.drop_last();
    assert(s0.len() == 0);
    assert(s1.last() == s[0] && s2.last() == s[1] && s3.last() == s[2] && s4.last() == s[3]);
    assert(33 <= s[0] && 33 <= s[1] && 33 <= s[2] && 33 <= s[3] && 33 <= s[4]);
    assert(base85(s1) == base85(s0) * 85 + ((s1.last() - 33) as nat));
    assert(base85(s2) == base85(s1) * 85 + ((s2.last() - 33) as nat));
    assert(base85(s3) == base85(s2) * 85 + ((s3.last() - 33) as nat));
    assert(base85(s4) == base85(s3) * 85 + ((s4.last() - 33) as nat));
    assert(base85(s) == base85(s4) * 85 + ((s.last() - 33) as nat));
}

proof fn lemma_first_bad85_none(c: Seq<u8>)
    requires
        forall|k: int| 0 <= k < c.len() ==> 0x21 <= #[trigger] c[k] <= 0x75,
    ensures
        first_bad85(c) is None,
    decreases c.len(),
{
    if c.len() > 0 {
        assert(0x21 <= c[0] <= 0x75);
        lemma_first_bad85_none(c.drop_first());
    }
}

/// The bytes of a value written with `n` significant bytes survive any
/// addition smaller than one unit of the lowest of them.
proof fn lemma_low_bytes_kept(w: nat, x0: nat, x1: nat, x2: nat, x3: nat, n: int)
    requires
        1 <= n <= 4,
        x0 < 256 && x1 < 256 && x2 < 256 && x3 < 256,
        n <= 3 ==> x3 == 0,
        n <= 2 ==> x2 == 0,
        n <= 1 ==> x1 == 0,
        ({
            let v = x0 * 16777216 + x1 * 65536 + x2 * 256 + x3;
            v <= w < v + (if n == 4 {
                1int
            } else if n == 3 {
                85int
            } else if n == 2 {
                7225int
            } else {
                614125int
            })
        }),
    ensures
        low_byte(w, 0) == x0,
        n >= 2 ==> low_byte(w, 1) == x1,
        n >= 3 ==> low_byte(w, 2) == x2,
        n == 4 ==> low_byte(w, 3) == x3,
{
    assert(w / 16777216 == x0);
    if n >= 2 {
        assert(w / 65536 == x0 * 256 + x1);
    }
    if n >= 3 {
        assert(w / 256 == x0 * 65536 + x1 * 256 + x2);
    }
}

/// Padding the digits from position `n + 1` on with the highest digit raises
/// the value by less than `85` to the power of the number of digits padded.
proof fn lemma_pad_raise(d0: int, d1: int, d2: int, d3: int, d4: int, p2: int, p3: int, p4: int, n: int)
    requires
        1 <= n <= 4,
        0 <= d2 <= 84 && 0 <= d3 <= 84 && 0 <= d4 <= 84,
        p2 == (if n >= 2 { d2 } else { 84 }),
        p3 == (if n >= 3 { d3 } else { 84 }),
        p4 == (if n >= 4 { d4 } else { 84 }),
    ensures
        ({
            let v = d0 * 52200625 + d1 * 614125 + d2 * 7225 + d3 * 85 + d4;
            let w = d0 * 52200625 + d1 * 614125 + p2 * 7225 + p3 * 85 + p4;
            v <= w < v + (if n == 4 {
                1int
            } else if n == 3 {
                85int
            } else if n == 2 {
                7225int
            } else {
                614125int
            })
        }),
{
}

/// One group that is not written as `z` decodes back to its bytes: its
/// digits are all valid, and padding the digits of a short group with `u`
/// raises its value by less than one unit of the lowest byte kept.
#[verifier::spinoff_prover]
proof fn lemma_a85_group_round_trip(b: Seq<u8>)
    requires
        1 <= b.len() <= 4,
        !(b.len() == 4 && be32(b) == 0),
    ensures
        a85_encode_group(b).len() == b.len() + 1,
        a85_encode_group(b)[0] != 0x7a,
        first_bad85(a85_encode_group(b)) is None,
        Seq::new(b.len() as nat, |j: int| low_byte(base85(pad85(a85_encode_group(b))), j)) == b,
{
    let n = b.len();
    let v = be32(b);
    let c = a85_encode_group(b);
    let x0 = byte_or_zero(b, 0);
    let x1 = byte_or_zero(b, 1);
    let x2 = byte_or_zero(b, 2);
    let x3 = byte_or_zero(b, 3);
    assert(x0 < 256 && x1 < 256 && x2 < 256 && x3 < 256);
    assert(v < 4294967296);
    lemma_a85_digits(v);
    assert forall|k: int| 0 <= k < c.len() implies 0x21 <= #[trigger] c[k] <= 0x75 by {
        assert(c[k] == a85_digit(v, k));
    }
    lemma_first_bad85_none(c);
    let p = pad85(c);
    assert forall|k: int| 0 <= k < 5 implies 33 <= #[trigger] p[k] <= 117 by {
        if k < c.len() {
            assert(p[k] == a85_digit(v, k));
        }
    }
    lemma_base85_five(p);
    let w = base85(p);
    assert(p[0] == a85_digit(v, 0) && p[1] == a85_digit(v, 1));
    assert(p[2] == (if n >= 2 { a85_digit(v, 2) } else { 117 }));
    assert(p[3] == (if n >= 3 { a85_digit(v, 3) } else { 117 }));
    assert(p[4] == (if n >= 4 { a85_digit(v, 4) } else { 117 }));
    lemma_pad_raise(
        a85_digit(v, 0) - 33,
        a85_digit(v, 1) - 33,
        a85_digit(v, 2) - 33,
        a85_digit(v, 3) - 33,
        a85_digit(v, 4) - 33,
        p[2] - 33,
        p[3] - 33,
        p[4] - 33,
        n as int,
    );
    lemma_low_bytes_kept(w, x0, x1, x2, x3, n as int);
    assert(Seq::new(n as nat, |j: int| low_byte(w, j)) =~= b);
}

/// Four zero bytes make the group written as `z`.
proof fn lemma_zero_group(b: Seq<u8>)
    requires
        b.len() == 4,
        be32(b) == 0,
    ensures
        b == seq![0u8, 0u8, 0u8, 0u8],
{
    assert(byte_or_zero(b, 0) == 0 && byte_or_zero(b, 1) == 0);
    assert(byte_or_zero(b, 2) == 0 && byte_or_zero(b, 3) == 0);
    assert(b =~= seq![0u8, 0u8, 0u8, 0u8]);
}

/// Decoding the groups of an encoding gives the bytes back.
proof fn lemma_a85_groups_of_encode(x: Seq<u8>)
    ensures
        a85_groups(a85_encode(x)) == Ok::<Seq<u8>, u8>(x),
    decreases x.len(),
{
    let s = a85_encode(x);
    if x.len() == 0 {
        assert(x =~= Seq::<u8>::empty());
    } else if x.len() < 4 {
        lemma_a85_group_round_trip(x);
        let n = x.len() as int + 1;
        assert(s.take(n) =~= s);
        assert(s.skip(n) =~= Seq::<u8>::empty());
        assert(a85_groups(s.skip(n)) == Ok::<Seq<u8>, u8>(Seq::empty()));
        let out = Seq::new(x.len() as nat, |j: int| low_byte(base85(pad85(s)), j));
        assert(out + Seq::<u8>::empty() =~= x);
    } else {
        let g = x.take(4);
        let rest = x.skip(4);
        let e = a85_encode_group(g);
        assert(s == e + a85_encode(rest));
        lemma_a85_groups_of_encode(rest);
        assert(x =~= g + rest);
        if be32(g) == 0 {
            lemma_zero_group(g);
            assert(s[0] == 0x7a);
            assert(s.skip(1) =~= a85_encode(rest));
        } else {
            lemma_a85_group_round_trip(g);
            assert(s.len() >= 5);
            assert(s[0] == e[0]);
            assert(s.take(5) =~= e);
            assert(s.skip(5) =~= a85_encode(rest));
        }
    }
}

/// Every byte of an encoding is a digit character or `z`.
proof fn lemma_a85_encode_bytes(x: Seq<u8>)
    ensures
        forall|k: int|
            0 <= k < a85_encode(x).len() ==> (0x21 <= #[trigger] a85_encode(x)[k] <= 0x75
                || a85_encode(x)[k] == 0x7a),
    decreases x.len(),
{
    let s = a85_encode(x);
    if x.len() > 0 {
        let g = if x.len() < 4 {
            x
        } else {
            x.take(4)
        };
        let e = a85_encode_group(g);
        let v = be32(g);
        assert(v < 4294967296);
        lemma_a85_digits(v);
        assert forall|k: int| 0 <= k < e.len() implies (0x21 <= #[trigger] e[k] <= 0x75 || e[k]
            == 0x7a) by {
            if !(g.len() == 4 && v == 0) {
                assert(e[k] == a85_digit(v, k));
            }
        }
        if x.len() >= 4 {
            lemma_a85_encode_bytes(x.skip(4));
            assert forall|k: int| 0 <= k < s.len() implies (0x21 <= #[trigger] s[k] <= 0x75 || s[k]
                == 0x7a) by {
                if k >= e.len() {
                    assert(s[k] == a85_encode(x.skip(4))[k - e.len()]);
                }
            }
        }
    }
}

proof fn lemma_drop_ws_none(s: Seq<u8>)
    requires
        forall|k: int| 0 <= k < s.len() ==> !is_ascii_ws(#[trigger] s[k]),
    ensures
        drop_ws(s) == s,
    decreases s.len(),
{
    if s.len() > 0 {
        assert(!is_ascii_ws(s[s.len() - 1]));
        lemma_drop_ws_none(s.drop_last());
        assert(s.drop_last().push(s.last()) =~= s);
    }
}

/// ASCII85 decoding undoes the encoding: for every byte string `x`, of any
/// length (so with a final group of one to three bytes too), decoding its
/// encoding gives `x` back, whether the encoding stands alone, ends with
/// the `~>` marker, or also starts with `<~`.
pub proof fn law_ascii85_round_trip(x: Seq<u8>)
    ensures
        spec_ascii85(a85_encode(x)) == Ok::<Seq<u8>, Seq<char>>(x),
        spec_ascii85(a85_encode(x) + seq![0x7eu8, 0x3eu8]) == Ok::<Seq<u8>, Seq<char>>(x),
        spec_ascii85(seq![0x3cu8, 0x7eu8] + a85_encode(x) + seq![0x7eu8, 0x3eu8]) == Ok::<
            Seq<u8>,
            Seq<char>,
        >(x),
{
    let e = a85_encode(x);
    lemma_a85_groups_of_encode(x);
    lemma_a85_encode_bytes(x);
    let e1 = e + seq![0x7eu8, 0x3eu8];
    let e2 = seq![0x3cu8, 0x7eu8] + e + seq![0x7eu8, 0x3eu8];
    assert forall|k: int| 0 <= k < e.len() implies !is_ascii_ws(#[trigger] e[k]) by {}
    assert forall|k: int| 0 <= k < e1.len() implies !is_ascii_ws(#[trigger] e1[k]) by {
        if k < e.len() {
            assert(e1[k] == e[k]);
        }
    }
    assert forall|k: int| 0 <= k < e2.len() implies !is_ascii_ws(#[trigger] e2[k]) by {
        if 2 <= k < e.len() + 2 {
            assert(e2[k] == e[k - 2]);
        }
    }
    lemma_drop_ws_none(e);
    lemma_drop_ws_none(e1);
    lemma_drop_ws_none(e2);
    if e.len() >= 2 {
        assert(e[e.len() - 2] != 0x7e);
        assert(e[1] != 0x7e);
    }
    assert(a85_payload(e) == e);
    assert(e1.take(e1.len() - 2) =~= e);
    assert(a85_payload(e1) == e);
    assert(e2.take(e2.len() - 2) =~= seq![0x3cu8, 0x7eu8] + e);
    assert((seq![0x3cu8, 0x7eu8] + e).skip(2) =~= e);
    assert(a85_payload(e2) == e);
}

/// Decodes one group of `n` digits at `input[i..i + n]` (no `z`), appending
/// its bytes, or gives the first bad byte.
fn a85_group(input: &Vec<u8>, i: usize, n: usize, result: &mut Vec<u8>) -> (r: Option<u8>)
    requires
        1 <= n <= 5,
        i + n <= input@.len(),
    ensures
        match first_bad85(input@.subrange(i as int, i + n)) {
            Some(b) => r == Some(b),
            None => r is None && final(result)@ == old(result)@ + Seq::new(
                (if n == 5 {
                    4
                } else {
                    n - 1
                }) as nat,
                |j: int| low_byte(base85(pad85(input@.subrange(i as int, i + n))), j),
            ),
        },
{
    let ghost chunk = input@.subrange(i as int, i + n);
    assert(chunk.skip(0) =~= chunk);
    let mut k: usize = 0;
    while k < n
        invariant
            k <= n <= 5,
            i + n <= input.len(),
            chunk == input@.subrange(i as int, i + n),
            first_bad85(chunk) == first_bad85(chunk.skip(k as int)),
            forall|m: int| 0 <= m < k ==> 0x21 <= #[trigger] chunk[m] <= 0x75,
        decreases n - k,
    {
        let b = input[i + k];
        assert(chunk.skip(k as int)[0] == b);
        if !(0x21 <= b && b <= 0x75) {
            return Some(b);
        }
        assert(chunk.skip(k as int).drop_first() =~= chunk.skip(k + 1));
        k = k + 1;
    }
    assert(chunk.skip(n as int) =~= Seq::<u8>::empty());
    let ghost padded = pad85(chunk);
    let mut value: u64 = 0;
    let mut m: usize = 0;
    while m < 5
        invariant
            m <= 5,
            n <= 5,
            chunk.len() == n,
            padded == pad85(chunk),
            forall|q: int| 0 <= q < n ==> 0x21 <= #[trigger] chunk[q] <= 0x75,
            i + n <= input.len(),
            chunk == input@.subrange(i as int, i + n),
            value == base85(padded.take(m as int)),
        decreases 5 - m,
    {
        let d: u8 = if m < n {
            input[i + m]
        } else {
            0x75
        };
        assert(padded[m as int] == d);
        proof {
            assert forall|q: int| 0 <= q < m implies 0x21 <= #[trigger] padded.take(m as int)[q] <= 0x75 by {
                assert(padded.take(m as int)[q] == padded[q]);
            }
            lemma_base85_bound(padded.take(m as int));
            assert(pow85(4) == 52200625) by {
                reveal_with_fuel(pow85, 5);
            }
            if m < 4 {
                assert(pow85(m as nat) <= pow85(4)) by {
                    reveal_with_fuel(pow85, 5);
                }
            }
            assert(padded.take(m + 1).drop_last() =~= padded.take(m as int));
        }
        value = value * 85 + (d - 33) as u64;
        m = m + 1;
    }
    assert(padded.take(5) =~= padded);
    let out_len: usize = if n == 5 {
        4
    } else {
        n - 1
    };
    let ghost before = result@;
    let mut j: usize = 0;
    while j < out_len
        invariant
            j <= out_len <= 4,
            value == base85(padded),
            result@ == before + Seq::new(j as nat, |q: int| low_byte(value as nat, q)),
        decreases out_len - j,
    {
        let w: u64 = if j == 0 {
            16777216
        } else if j == 1 {
            65536
        } else if j == 2 {
            256
        } else {
            1
        };
        let byte = ((value / w) % 256) as u8;
        assert(byte == low_byte(value as nat, j as int));
        result.push(byte);
        assert(Seq::new((j + 1) as nat, |q: int| low_byte(value as nat, q)) =~= Seq::new(
            j as nat,
            |q: int| low_byte(value as nat, q),
        ).push(byte));
        j = j + 1;
    }
    None
}

pub fn decode_ascii85(data: &[u8]) -> (r: Result<Vec<u8>, String>)
    ensures
        match spec_ascii85(data@) {
            Ok(out) => r is Ok && r->Ok_0@ == out,
            Err(msg) => r is Err && r->Err_0@ == msg,
        },
{
    let cleaned = strip_ascii_ws(data);
    let mut end = cleaned.len();
    if end >= 2 && cleaned[end - 2] == 0x7e && cleaned[end - 1] == 0x3e {
        end = end - 2;
    }
    let mut start: usize = 0;
    if end >= 2 && cleaned[0] == 0x3c && cleaned[1] == 0x7e {
        start = 2;
    }
    let input = slice_vec(&cleaned, start, end);
    assert(input@ =~= a85_payload(data@));
    let len = input.len();
    let mut result: Vec<u8> = Vec::new();
    let mut i: usize = 0;
    assert(input@.skip(0) =~= input@);
    assert(result@ + Seq::<u8>::empty() =~= result@);
    while i < len
        invariant
            len == input@.len(),
            input@ == a85_payload(data@),
            i <= len,
            a85_groups(input@) == then_bytes(result@, a85_groups(input@.skip(i as int))),
        decreases len - i,
    {
        let ghost rest = input@.skip(i as int);
        let ghost before = result@;
        assert(rest[0] == input@[i as int]);
        if input[i] == 0x7a {
            result.push(0);
            result.push(0);
            result.push(0);
            result.push(0);
            proof {
                assert(rest.skip(1) =~= input@.skip(i + 1));
                let nr = a85_groups(input@.skip(i + 1));
                if nr is Ok {
                    assert(before + (seq![0u8, 0u8, 0u8, 0u8] + nr->Ok_0) =~= result@ + nr->Ok_0);
                }
            }
            i = i + 1;
        } else {
            let n: usize = if len - i < 5 {
                len - i
            } else {
                5
            };
            assert(rest.take(n as int) =~= input@.subrange(i as int, i + n));
            match a85_group(&input, i, n, &mut result) {
                Some(b) => {
                    return Err(byte_msg("ASCII85Decode: invalid character 0x", b));
                },
                None => {},
            }
            proof {
                assert(rest.skip(n as int) =~= input@.skip(i + n));
                let chunk = rest.take(n as int);
                let v = base85(pad85(chunk));
                let ol: int = if n == 5 { 4 } else { n - 1 };
                let grp0 = Seq::new(ol as nat, |j: int| low_byte(v, j));
                assert(result@.skip(before.len() as int) =~= grp0);
                assert(first_bad85(chunk) is None);
                assert(a85_groups(rest) == then_bytes(grp0, a85_groups(rest.skip(n as int))));
                let nr = a85_groups(input@.skip(i + n));
                let grp = result@.skip(before.len() as int);
                assert(result@ =~= before + grp);
                if nr is Ok {
                    assert(before + (grp + nr->Ok_0) =~= result@ + nr->Ok_0);
                }
            }
            i = i + n;
        }
    }
    assert(input@.skip(len as int) =~= Seq::<u8>::empty());
    assert(result@ + Seq::<u8>::empty() =~= result@);
    Ok(result)
}

/// A copy of `v[lo..hi]`.
fn slice_vec(v: &Vec<u8>, lo: usize, hi: usize) -> (r: Vec<u8>)
    requires
        lo <= hi <= v@.len(),
    ensures
        r@ == v@.subrange(lo as int, hi as int),
{
    let mut r: Vec<u8> = Vec::new();
    let mut i = lo;
    while i < hi
        invariant
            lo <= i <= hi <= v@.len(),
            r@ == v@.subrange(lo as int, i as int),
        decreases hi - i,
    {
        r.push(v[i]);
        assert(v@.subrange(lo as int, i + 1) =~= v@.subrange(lo as int, i as int).push(v@[i as int]));
        i = i + 1;
    }
    r
}

// ── Hex dump ────────────────────────────────────────────────────────

/// Lower-case hexadecimal digits of `n`, most significant first.
pub open spec fn hex_digits(n: nat) -> Seq<char>
    decreases n,
{
    if n < 16 {
        seq![hex_char(n)]
    } else {
        hex_digits(n / 16).push(hex_char(n % 16))
    }
}

/// `s` padded on the left with `0` to at least `w` characters.
pub open spec fn zero_pad(s: Seq<char>, w: nat) -> Seq<char> {
    if s.len() < w {
        Seq::new((w - s.len()) as nat, |i: int| '0') + s
    } else {
        s
    }
}

/// How a byte shows in the text column: printable ASCII as itself, else `.`.
pub open spec fn shown_char(b: u8) -> char {
    if 0x20 <= b && b <= 0x7e {
        b as char
    } else {
        '.'
    }
}

/// The hex column for the bytes of one line: each byte as two digits and a
/// space, with one extra space after the eighth.
pub open spec fn hex_cells(c: Seq<u8>) -> Seq<char>
    decreases c.len(),
{
    if c.len() == 0 {
        Seq::empty()
    } else {
        hex_cells(c.drop_last()) + hex2(c.last()) + " "@ + (if c.len() - 1 == 7 {
            " "@
        } else {
            Seq::empty()
        })
    }
}

/// Blank cells filling the hex column from position `from` to sixteen.
pub open spec fn pad_cells(from: nat) -> Seq<char>
    decreases 16 - from,
{
    if from >= 16 {
        Seq::empty()
    } else {
        "   "@ + (if from == 7 {
            " "@
        } else {
            Seq::empty()
        }) + pad_cells(from + 1)
    }
}

/// One dump line: eight-digit offset, hex column, then the text column.
pub open spec fn dump_line(off: nat, c: Seq<u8>) -> Seq<char> {
    zero_pad(hex_digits(off), 8) + "  "@ + hex_cells(c) + pad_cells(c.len()) + " |"@
        + c.map_values(|b: u8| shown_char(b)) + "|\n"@
}

/// The dump of `data`, whose first byte sits at offset `off`: one line per
/// sixteen bytes.
pub open spec fn hex_dump_from(data: Seq<u8>, off: nat) -> Seq<char>
    decreases data.len(),
{
    if data.len() == 0 {
        Seq::empty()
    } else {
        let n: int = if data.len() < 16 {
            data.len() as int
        } else {
            16
        };
        dump_line(off, data.take(n)) + hex_dump_from(data.skip(n), off + 16)
    }
}

/// Appends the hexadecimal digits of `n`.
fn push_hex_digits(s: &mut String, n: usize)
    ensures
        final(s)@ == old(s)@ + hex_digits(n as nat),
    decreases n,
{
    if n < 16 {
        push_char(s, hex_char_exec(n as u8));
        assert(final(s)@ =~= old(s)@ + hex_digits(n as nat));
    } else {
        push_hex_digits(s, n / 16);
        push_char(s, hex_char_exec((n % 16) as u8));
        assert(final(s)@ =~= old(s)@ + hex_digits(n as nat));
    }
}

/// Number of hexadecimal digits of `n`.
fn hex_len(n: usize) -> (r: usize)
    ensures
        r == hex_digits(n as nat).len(),
    decreases n,
{
    proof {
        lemma_hex_digits_len(n as nat);
    }
    if n < 16 {
        1
    } else {
        let k = hex_len(n / 16);
        k + 1
    }
}

proof fn lemma_hex_digits_len(n: nat)
    ensures
        hex_digits(n).len() <= n / 16 + 1,
    decreases n,
{
    if n >= 16 {
        lemma_hex_digits_len(n / 16);
    }
}

/// Appends one dump line for `data[lo..hi]` at offset `lo`.
fn push_dump_line(s: &mut String, data: &[u8], lo: usize, hi: usize)
    requires
        lo < hi <= data@.len(),
        hi - lo <= 16,
    ensures
        final(s)@ == old(s)@ + dump_line(lo as nat, data@.subrange(lo as int, hi as int)),
{
    let ghost c = data@.subrange(lo as int, hi as int);
    // offset, zero-padded to eight digits
    let k = hex_len(lo);
    let ghost start = s@;
    let mut z: usize = k;
    while z < 8
        invariant
            k <= z <= 8 || (k > 8 && z == k),
            k == hex_digits(lo as nat).len(),
            s@ == start + Seq::new((z - k) as nat, |i: int| '0'),
        decreases 8 - z,
    {
        push_char(s, '0');
        assert(Seq::new((z + 1 - k) as nat, |i: int| '0') =~= Seq::new((z - k) as nat, |i: int| '0').push('0'));
        z = z + 1;
    }
    push_hex_digits(s, lo);
    assert(s@ =~= start + zero_pad(hex_digits(lo as nat), 8));
    push_str(s, "  ");
    let ghost after_off = s@;
    // hex column
    let mut i: usize = lo;
    while i < hi
        invariant
            lo <= i <= hi <= data@.len(),
            c == data@.subrange(lo as int, hi as int),
            s@ == after_off + hex_cells(data@.subrange(lo as int, i as int)),
        decreases hi - i,
    {
        let ghost prev = data@.subrange(lo as int, i as int);
        push_hex2(s, data[i]);
        push_str(s, " ");
        if i - lo == 7 {
            push_str(s, " ");
        }
        let ghost next = data@.subrange(lo as int, i + 1);
        assert(next.drop_last() =~= prev);
        assert(next.last() == data@[i as int]);
        proof {
            if i - lo == 7 {
                assert(s@ =~= after_off + hex_cells(next));
            } else {
                assert(s@ =~= after_off + hex_cells(next));
            }
        }
        i = i + 1;
    }
    // padding
    let ghost after_hex = s@;
    let mut p: usize = hi - lo;
    while p < 16
        invariant
            hi - lo <= p <= 16,
            s@ + pad_cells(p as nat) == after_hex + pad_cells((hi - lo) as nat),
        decreases 16 - p,
    {
        let ghost before = s@;
        push_str(s, "   ");
        if p == 7 {
            push_str(s, " ");
        }
        proof {
            if p == 7 {
                assert(before + pad_cells(p as nat) =~= s@ + pad_cells((p + 1) as nat));
            } else {
                assert(before + pad_cells(p as nat) =~= s@ + pad_cells((p + 1) as nat));
            }
        }
        p = p + 1;
    }
    assert(pad_cells(16) =~= Seq::<char>::empty());
    assert(s@ =~= after_hex + pad_cells((hi - lo) as nat));
    push_str(s, " |");
    let ghost after_bar = s@;
    let mut j: usize = lo;
    while j < hi
        invariant
            lo <= j <= hi <= data@.len(),
            s@ == after_bar + data@.subrange(lo as int, j as int).map_values(|b: u8| shown_char(b)),
        decreases hi - j,
    {
        let b = data[j];
        if 0x20 <= b && b <= 0x7e {
            push_char(s, b as char);
        } else {
            push_char(s, '.');
        }
        assert(data@.subrange(lo as int, j + 1).map_values(|b: u8| shown_char(b)) =~= data@.subrange(
            lo as int,
            j as int,
        ).map_values(|b: u8| shown_char(b)).push(shown_char(b)));
        j = j + 1;
    }
    push_str(s, "|\n");
    assert(s@ =~= old(s)@ + dump_line(lo as nat, c));
}

/// A classic hex dump: sixteen bytes per line with offsets and a text column.
pub fn format_hex_dump(data: &[u8]) -> (r: String)
    ensures
        r@ == hex_dump_from(data@, 0),
{
    let mut result = String::new();
    let mut off: usize = 0;
    let len = data.len();
    assert(data@.skip(0) =~= data@);
    while off < len
        invariant
            off <= len == data@.len(),
            hex_dump_from(data@, 0) == result@ + hex_dump_from(data@.skip(off as int), off as nat),
        decreases len - off,
    {
        let n: usize = if len - off < 16 {
            len - off
        } else {
            16
        };
        let ghost rest = data@.skip(off as int);
        let ghost before = result@;
        push_dump_line(&mut result, data, off, off + n);
        proof {
            assert(rest.take(n as int) =~= data@.subrange(off as int, off + n));
            assert(rest.skip(n as int) =~= data@.skip(off + n));
            assert(hex_dump_from(rest, off as nat) == dump_line(off as nat, rest.take(n as int))
                + hex_dump_from(rest.skip(n as int), (off + 16) as nat));
            if n < 16 {
                assert(data@.skip(off + n) =~= Seq::<u8>::empty());
                assert(hex_dump_from(data@.skip(off + n), (off + 16) as nat) == hex_dump_from(
                    data@.skip(off + n),
                    (off + n) as nat,
                ));
            }
        }
        off = off + n;
    }
    assert(hex_dump_from(data@.skip(len as int), len as nat) =~= Seq::<char>::empty()) by {
        assert(data@.skip(len as int) =~= Seq::<u8>::empty());
    }
    assert(result@ + Seq::<char>::empty() =~= result@);
    result
}

// ── Outside decoders ────────────────────────────────────────────────

/// The bytes a zlib (RFC 1950) stream inflates to, or `None` when it does not
/// inflate.
pub uninterp spec fn zlib_inflated(data: Seq<u8>) -> Option<Seq<u8>>;

/// Inflates zlib data.
///
/// Trusted: reads `flate2::read::ZlibDecoder` over `data` to its end; the
/// result is a function of `data` alone, named `zlib_inflated`.
#[verifier::external_body]
fn zlib_inflate(data: &[u8]) -> (r: Option<Vec<u8>>)
    ensures
        match r {
            Some(v) => zlib_inflated(data@) == Some(v@),
            None => zlib_inflated(data@) is None,
        },
{
    let mut decoder = flate2::read::ZlibDecoder::new(data);
    let mut out = Vec::new();
    match decoder.read_to_end(&mut out) {
        Ok(_) => Some(out),
        Err(_) => None,
    }
}

/// What LZW decoding (TIFF-style code-size switch, MSB-first, 8-bit symbols)
/// gives for `data`: the bytes, or the text `LZWDecode: ` and the decoder's
/// error message.
pub uninterp spec fn lzw_decoded(data: Seq<u8>) -> Result<Seq<u8>, Seq<char>>;

/// LZW decoding as PDF's LZWDecode filter uses it.
///
/// Trusted: runs `weezl::decode::Decoder::with_tiff_size_switch(Msb, 8)` and
/// `decode` over `data`; the result is a function of `data` alone, named
/// `lzw_decoded`.
#[verifier::external_body]
pub(crate) fn decode_lzw(data: &[u8]) -> (r: Result<Vec<u8>, String>)
    ensures
        match r {
            Ok(v) => lzw_decoded(data@) == Ok::<Seq<u8>, Seq<char>>(v@),
            Err(e) => lzw_decoded(data@) == Err::<Seq<u8>, Seq<char>>(e@),
        },
{
    let mut decoder = weezl::decode::Decoder::with_tiff_size_switch(weezl::BitOrder::Msb, 8);
    decoder.decode(data).map_err(|e| format!("LZWDecode: {}", e))
}

/// The text `String::from_utf8_lossy` makes of `b`: UTF-8 decoding with each
/// invalid sequence replaced by U+FFFD.
pub uninterp spec fn utf8_lossy(b: Seq<u8>) -> Seq<char>;

/// Decodes bytes as UTF-8, replacing invalid sequences.
///
/// Trusted: `String::from_utf8_lossy(b)`, named `utf8_lossy`. Each character
/// of the result comes from at least one byte of `b` (a decoded scalar, or a
/// U+FFFD standing for an invalid sequence), so it has no more characters
/// than `b` has bytes.
#[verifier::external_body]
pub(crate) fn lossy_string(b: &[u8]) -> (r: String)
    ensures
        r@ == utf8_lossy(b@),
        r@.len() <= b@.len(),
{
    String::from_utf8_lossy(b).into_owned()
}

// ── Filter pipeline ─────────────────────────────────────────────────

/// The `/Filter` entry of a stream dictionary.
#[derive(Debug, Clone)]
pub enum FilterEntry {
    /// A single filter name.
    Name(Vec<u8>),
    /// An array of filters; `None` marks an element that is not a name.
    Array(Vec<Option<Vec<u8>>>),
    /// Any other kind of object.
    Other,
}

/// A stream: its `/Filter` entry (if any) and its raw content.
#[derive(Debug, Clone)]
pub struct PdfStream {
    pub filter: Option<FilterEntry>,
    pub content: Vec<u8>,
}

/// The names among the elements of a filter array, in order.
pub open spec fn array_names(a: Seq<Option<Vec<u8>>>) -> Seq<Seq<u8>>
    decreases a.len(),
{
    if a.len() == 0 {
        Seq::empty()
    } else {
        match a.last() {
            Some(n) => array_names(a.drop_last()).push(n@),
            None => array_names(a.drop_last()),
        }
    }
}

/// The filter names a stream declares, in application order.
pub open spec fn spec_filter_names(f: Option<FilterEntry>) -> Seq<Seq<u8>> {
    match f {
        Some(FilterEntry::Name(n)) => seq![n@],
        Some(FilterEntry::Array(a)) => array_names(a@),
        _ => Seq::empty(),
    }
}

pub fn get_filter_names(stream: &PdfStream) -> (r: Vec<Vec<u8>>)
    ensures
        r@.map_values(|n: Vec<u8>| n@) == spec_filter_names(stream.filter),
{
    let mut r: Vec<Vec<u8>> = Vec::new();
    match &stream.filter {
        Some(FilterEntry::Name(n)) => {
            r.push(n.clone());
            assert(r@.map_values(|n: Vec<u8>| n@) =~= spec_filter_names(stream.filter));
        },
        Some(FilterEntry::Array(a)) => {
            let mut i: usize = 0;
            while i < a.len()
                invariant
                    i <= a@.len(),
                    r@.map_values(|n: Vec<u8>| n@) == array_names(a@.take(i as int)),
                decreases a.len() - i,
            {
                assert(a@.take(i + 1).drop_last() =~= a@.take(i as int));
                match &a[i] {
                    Some(n) => {
                        r.push(n.clone());
                        assert(r@.map_values(|n: Vec<u8>| n@) =~= array_names(a@.take(i as int)).push(
                            n@,
                        ));
                    },
                    None => {},
                }
                i = i + 1;
            }
            assert(a@.take(a@.len() as int) =~= a@);
        },
        _ => {
            assert(r@.map_values(|n: Vec<u8>| n@) =~= Seq::<Seq<u8>>::empty());
        },
    }
    r
}

/// The decoders this library applies itself.
#[derive(Debug, Clone, Copy, PartialEq, Eq, Structural)]
pub enum KnownFilter {
    Flate,
    Ascii85,
    AsciiHex,
    Lzw,
    RunLength,
}

/// The bytes of each known filter's name.
pub open spec fn known_filter_name(k: KnownFilter) -> Seq<u8> {
    match k {
        KnownFilter::Flate => seq![70u8, 108, 97, 116, 101, 68, 101, 99, 111, 100, 101],
        KnownFilter::Ascii85 => seq![65u8, 83, 67, 73, 73, 56, 53, 68, 101, 99, 111, 100, 101],
        KnownFilter::AsciiHex => seq![65u8, 83, 67, 73, 73, 72, 101, 120, 68, 101, 99, 111, 100, 101],
        KnownFilter::Lzw => seq![76u8, 90, 87, 68, 101, 99, 111, 100, 101],
        KnownFilter::RunLength => seq![82u8, 117, 110, 76, 101, 110, 103, 116, 104, 68, 101, 99, 111, 100, 101],
    }
}

/// The known filter a name denotes (`FlateDecode`, `ASCII85Decode`,
/// `ASCIIHexDecode`, `LZWDecode` or `RunLengthDecode`).
pub open spec fn spec_known_filter(name: Seq<u8>) -> Option<KnownFilter> {
    if name == known_filter_name(KnownFilter::Flate) {
        Some(KnownFilter::Flate)
    } else if name == known_filter_name(KnownFilter::Ascii85) {
        Some(KnownFilter::Ascii85)
    } else if name == known_filter_name(KnownFilter::AsciiHex) {
        Some(KnownFilter::AsciiHex)
    } else if name == known_filter_name(KnownFilter::Lzw) {
        Some(KnownFilter::Lzw)
    } else if name == known_filter_name(KnownFilter::RunLength) {
        Some(KnownFilter::RunLength)
    } else {
        None
    }
}

/// Byte-wise equality of two slices.
fn bytes_eq(a: &[u8], b: &[u8]) -> (r: bool)
    ensures
        r == (a@ == b@),
{
    if a.len() != b.len() {
        return false;
    }
    let mut i: usize = 0;
    while i < a.len()
        invariant
            i <= a@.len() == b@.len(),
            forall|j: int| 0 <= j < i ==> a@[j] == b@[j],
        decreases a.len() - i,
    {
        if a[i] != b[i] {
            return false;
        }
        i = i + 1;
    }
    assert(a@ =~= b@);
    true
}

fn known_filter(name: &[u8]) -> (r: Option<KnownFilter>)
    ensures
        r == spec_known_filter(name@),
{
    let flate: Vec<u8> = vec![70, 108, 97, 116, 101, 68, 101, 99, 111, 100, 101];
    let a85: Vec<u8> = vec![65, 83, 67, 73, 73, 56, 53, 68, 101, 99, 111, 100, 101];
    let ahex: Vec<u8> = vec![65, 83, 67, 73, 73, 72, 101, 120, 68, 101, 99, 111, 100, 101];
    let lzw: Vec<u8> = vec![76, 90, 87, 68, 101, 99, 111, 100, 101];
    let rl: Vec<u8> = vec![82, 117, 110, 76, 101, 110, 103, 116, 104, 68, 101, 99, 111, 100, 101];
    assert(flate@ =~= known_filter_name(KnownFilter::Flate));
    assert(a85@ =~= known_filter_name(KnownFilter::Ascii85));
    assert(ahex@ =~= known_filter_name(KnownFilter::AsciiHex));
    assert(lzw@ =~= known_filter_name(KnownFilter::Lzw));
    assert(rl@ =~= known_filter_name(KnownFilter::RunLength));
    if bytes_eq(name, flate.as_slice()) {
        Some(KnownFilter::Flate)
    } else if bytes_eq(name, a85.as_slice()) {
        Some(KnownFilter::Ascii85)
    } else if bytes_eq(name, ahex.as_slice()) {
        Some(KnownFilter::AsciiHex)
    } else if bytes_eq(name, lzw.as_slice()) {
        Some(KnownFilter::Lzw)
    } else if bytes_eq(name, rl.as_slice()) {
        Some(KnownFilter::RunLength)
    } else {
        None
    }
}

/// One filter applied to `data`: the decoded bytes, or the warning that stops
/// the pipeline.
pub open spec fn apply_filter(name: Seq<u8>, data: Seq<u8>) -> Result<Seq<u8>, Seq<char>> {
    match spec_known_filter(name) {
        Some(KnownFilter::Flate) => match zlib_inflated(data) {
            Some(d) => Ok(d),
            None => Err("FlateDecode decompression failed"@),
        },
        Some(KnownFilter::Ascii85) => spec_ascii85(data),
        Some(KnownFilter::AsciiHex) => spec_asciihex(data),
        Some(KnownFilter::Lzw) => lzw_decoded(data),
        Some(KnownFilter::RunLength) => spec_run_length(data),
        None => Err("unsupported filter: "@ + utf8_lossy(name)),
    }
}

/// The filters applied in order: the final bytes, or the bytes reached before
/// the first filter that fails, with that filter's warning.
pub open spec fn run_filters(data: Seq<u8>, fs: Seq<Seq<u8>>) -> (Seq<u8>, Option<Seq<char>>)
    decreases fs.len(),
{
    if fs.len() == 0 {
        (data, None)
    } else {
        match apply_filter(fs[0], data) {
            Ok(d) => run_filters(d, fs.drop_first()),
            Err(w) => (data, Some(w)),
        }
    }
}

/// Filters are chained in the order listed: running a list that is one list
/// followed by another runs the second on what the first produced, unless
/// the first stopped on a failing filter, which ends the chain there; and a
/// single filter is just that filter applied.
pub proof fn law_filters_chain_in_order(data: Seq<u8>, fs: Seq<Seq<u8>>, gs: Seq<Seq<u8>>)
    ensures
        run_filters(data, fs + gs) == (if run_filters(data, fs).1 is None {
            run_filters(run_filters(data, fs).0, gs)
        } else {
            run_filters(data, fs)
        }),
        fs.len() == 1 ==> run_filters(data, fs) == (match apply_filter(fs[0], data) {
            Ok(d) => (d, None::<Seq<char>>),
            Err(w) => (data, Some(w)),
        }),
    decreases fs.len(),
{
    if fs.len() == 0 {
        assert(fs + gs =~= gs);
    } else {
        assert((fs + gs)[0] == fs[0]);
        assert((fs + gs).drop_first() =~= fs.drop_first() + gs);
        match apply_filter(fs[0], data) {
            Ok(d) => {
                law_filters_chain_in_order(d, fs.drop_first(), gs);
            },
            Err(w) => {},
        }
        if fs.len() == 1 {
            assert(fs.drop_first() =~= Seq::<Seq<u8>>::empty());
        }
    }
}

fn apply_one(name: &Vec<u8>, data: &[u8]) -> (r: Result<Vec<u8>, String>)
    ensures
        match apply_filter(name@, data@) {
            Ok(d) => r is Ok && r->Ok_0@ == d,
            Err(w) => r is Err && r->Err_0@ == w,
        },
{
    match known_filter(name.as_slice()) {
        Some(KnownFilter::Flate) => match zlib_inflate(data) {
            Some(d) => Ok(d),
            None => Err("FlateDecode decompression failed".to_string()),
        },
        Some(KnownFilter::Ascii85) => decode_ascii85(data),
        Some(KnownFilter::AsciiHex) => decode_asciihex(data),
        Some(KnownFilter::Lzw) => decode_lzw(data),
        Some(KnownFilter::RunLength) => decode_run_length(data),
        None => {
            let mut msg = "unsupported filter: ".to_string();
            let lossy = lossy_string(name.as_slice());
            push_str(&mut msg, lossy.as_str());
            Err(msg)
        },
    }
}

/// A stream's content decoded through its filters, and the warning of the
/// filter that stopped decoding, if one did. Content with no filters is
/// handed back borrowed.
pub fn decode_stream(stream: &PdfStream) -> (r: (Cow<'_, [u8]>, Option<String>))
    ensures
        r.0@ == run_filters(stream.content@, spec_filter_names(stream.filter)).0,
        match run_filters(stream.content@, spec_filter_names(stream.filter)).1 {
            Some(w) => r.1 is Some && r.1->0@ == w,
            None => r.1 is None,
        },
        (spec_filter_names(stream.filter).len() == 0) == (r.0 matches Cow::Borrowed(_)),
{
    let filters = get_filter_names(stream);
    let ghost fs = spec_filter_names(stream.filter);
    assert(filters@.len() == fs.len());
    if filters.len() == 0 {
        return (Cow::Borrowed(stream.content.as_slice()), None);
    }
    let mut data: Vec<u8> = stream.content.clone();
    let mut i: usize = 0;
    assert(fs.skip(0) =~= fs);
    while i < filters.len()
        invariant
            i <= filters@.len() == fs.len(),
            fs == filters@.map_values(|n: Vec<u8>| n@),
            fs == spec_filter_names(stream.filter),
            run_filters(stream.content@, fs) == run_filters(data@, fs.skip(i as int)),
        decreases filters.len() - i,
    {
        assert(fs.skip(i as int)[0] == filters@[i as int]@);
        assert(fs.skip(i as int).drop_first() =~= fs.skip(i + 1));
        match apply_one(&filters[i], data.as_slice()) {
            Ok(decoded) => {
                data = decoded;
            },
            Err(msg) => {
                return (Cow::Owned(data), Some(msg));
            },
        }
        i = i + 1;
    }
    assert(fs.skip(i as int) =~= Seq::<Seq<u8>>::empty());
    (Cow::Owned(data), None)
}

/// The bytes a decoded stream holds, borrowed or owned.
pub(crate) fn cow_bytes<'a>(c: &'a Cow<'a, [u8]>) -> (r: &'a [u8])
    ensures
        r@ == c@,
{
    match c {
        Cow::Borrowed(b) => b,
        Cow::Owned(v) => v.as_slice(),
    }
}

} // verus!
