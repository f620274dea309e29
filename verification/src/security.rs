//! The encryption dictionary: which algorithm it selects, which permissions
//! its `/P` bits grant, and where a document's `/Encrypt` entry is found.
use vstd::prelude::*;
use crate::recover::{find_in, first_match_at, lemma_first_match, match_at, spec_find_subslice};
use crate::textbuf::{dec, dec_int, push_dec, push_dec_i64, push_line, push_str, views};

verus! {

/// The name of the algorithm that `/V` selects; for the variable-length RC4
/// handler the key length is shown, 40 bits when `/Length` is not positive.
pub open spec fn algorithm_text(v: int, length: int) -> Seq<char> {
    if v == 0 {
        "Undocumented"@
    } else if v == 1 {
        "RC4, 40-bit"@
    } else if v == 2 {
        "RC4, "@ + dec_int(if length > 0 { length } else { 40 }) + "-bit"@
    } else if v == 3 {
        "Unpublished"@
    } else if v == 4 {
        "AES-128"@
    } else if v == 5 {
        "AES-256"@
    } else {
        "Unknown (V="@ + dec_int(v) + ")"@
    }
}

pub fn algorithm_name(v: i64, length: i64) -> (r: String)
    ensures
        r@ == algorithm_text(v as int, length as int),
{
    let mut s = String::new();
    if v == 0 {
        push_str(&mut s, "Undocumented");
    } else if v == 1 {
        push_str(&mut s, "RC4, 40-bit");
    } else if v == 2 {
        push_str(&mut s, "RC4, ");
        push_dec_i64(&mut s, if length > 0 { length } else { 40 });
        push_str(&mut s, "-bit");
    } else if v == 3 {
        push_str(&mut s, "Unpublished");
    } else if v == 4 {
        push_str(&mut s, "AES-128");
    } else if v == 5 {
        push_str(&mut s, "AES-256");
    } else {
        push_str(&mut s, "Unknown (V=");
        push_dec_i64(&mut s, v);
        push_str(&mut s, ")");
    }
    s
}

/// What the user access permission bits of `/P` allow.
#[derive(Clone, Copy, Debug, PartialEq, Eq, Structural)]
pub struct Permissions {
    pub print: bool,
    pub modify: bool,
    pub copy_extract_text: bool,
    pub annotate: bool,
    pub fill_forms: bool,
    pub accessibility_extract: bool,
    pub assemble: bool,
    pub print_high_quality: bool,
}

/// Bit `k` (counting from 0) of the low 32 bits of `p` in two's complement.
pub open spec fn bit_set(p: i64, k: u32) -> bool {
    (p as u32) & (1u32 << k) != 0u32
}

/// The permissions that the value `p` of `/P` grants: bits 3, 4, 5, 6, 9,
/// 10, 11 and 12 in the numbering of the PDF reference (which starts at 1).
pub open spec fn permissions_of(p: i64) -> Permissions {
    Permissions {
        print: bit_set(p, 2),
        modify: bit_set(p, 3),
        copy_extract_text: bit_set(p, 4),
        annotate: bit_set(p, 5),
        fill_forms: bit_set(p, 8),
        accessibility_extract: bit_set(p, 9),
        assemble: bit_set(p, 10),
        print_high_quality: bit_set(p, 11),
    }
}

/// Each permission reads its own bit of the low 32 bits of `/P`: print is
/// the bit of value 4, modify 8, copying and extracting text 16, annotating
/// 32, filling forms 256, extraction for accessibility 512, assembling 1024
/// and high-quality printing 2048.
pub proof fn law_permission_bits(p: i64)
    ensures
        permissions_of(p).print == ((p as u32) & 4u32 != 0u32),
        permissions_of(p).modify == ((p as u32) & 8u32 != 0u32),
        permissions_of(p).copy_extract_text == ((p as u32) & 16u32 != 0u32),
        permissions_of(p).annotate == ((p as u32) & 32u32 != 0u32),
        permissions_of(p).fill_forms == ((p as u32) & 256u32 != 0u32),
        permissions_of(p).accessibility_extract == ((p as u32) & 512u32 != 0u32),
        permissions_of(p).assemble == ((p as u32) & 1024u32 != 0u32),
        permissions_of(p).print_high_quality == ((p as u32) & 2048u32 != 0u32),
{
    assert(1u32 << 2u32 == 4u32) by (bit_vector);
    assert(1u32 << 3u32 == 8u32) by (bit_vector);
    assert(1u32 << 4u32 == 16u32) by (bit_vector);
    assert(1u32 << 5u32 == 32u32) by (bit_vector);
    assert(1u32 << 8u32 == 256u32) by (bit_vector);
    assert(1u32 << 9u32 == 512u32) by (bit_vector);
    assert(1u32 << 10u32 == 1024u32) by (bit_vector);
    assert(1u32 << 11u32 == 2048u32) by (bit_vector);
}

pub fn decode_permissions(p: i64) -> (r: Permissions)
    ensures
        r == permissions_of(p),
        r.print == ((p as u32) & 4u32 != 0u32),
        r.modify == ((p as u32) & 8u32 != 0u32),
        r.copy_extract_text == ((p as u32) & 16u32 != 0u32),
        r.annotate == ((p as u32) & 32u32 != 0u32),
        r.fill_forms == ((p as u32) & 256u32 != 0u32),
        r.accessibility_extract == ((p as u32) & 512u32 != 0u32),
        r.assemble == ((p as u32) & 1024u32 != 0u32),
        r.print_high_quality == ((p as u32) & 2048u32 != 0u32),
{
    proof {
        law_permission_bits(p);
    }
    let bits: u32 = p as u32;
    Permissions {
        print: bits & (1u32 << 2u32) != 0u32,
        modify: bits & (1u32 << 3u32) != 0u32,
        copy_extract_text: bits & (1u32 << 4u32) != 0u32,
        annotate: bits & (1u32 << 5u32) != 0u32,
        fill_forms: bits & (1u32 << 8u32) != 0u32,
        accessibility_extract: bits & (1u32 << 9u32) != 0u32,
        assemble: bits & (1u32 << 10u32) != 0u32,
        print_high_quality: bits & (1u32 << 11u32) != 0u32,
    }
}

/// A byte skipped between a key and its value: space, CR or LF.
pub open spec fn is_pad(b: u8) -> bool {
    b == 32 || b == 13 || b == 10
}

/// An ASCII decimal digit.
pub open spec fn is_digit_byte(b: u8) -> bool {
    48 <= b && b <= 57
}

/// The end of the run of padding bytes that starts at `i`.
pub open spec fn skip_pad(s: Seq<u8>, i: int) -> int
    decreases s.len() - i,
{
    if 0 <= i < s.len() && is_pad(s[i]) {
        skip_pad(s, i + 1)
    } else {
        i
    }
}

/// The end of the run of digits that starts at `i`.
pub open spec fn digit_end(s: Seq<u8>, i: int) -> int
    decreases s.len() - i,
{
    if 0 <= i < s.len() && is_digit_byte(s[i]) {
        digit_end(s, i + 1)
    } else {
        i
    }
}

/// The decimal value of the digits `s[a..e]`.
pub open spec fn digits_val(s: Seq<u8>, a: int, e: int) -> int
    decreases e - a,
{
    if e <= a {
        0
    } else {
        10 * digits_val(s, a, e - 1) + (s[e - 1] - 48)
    }
}

/// The integer that `s` starts with, after padding: an optional sign, then
/// at least one digit; nothing when there is no digit or the value does not
/// fit in an `i64`.
pub open spec fn int_at(s: Seq<u8>) -> Option<int> {
    let i = skip_pad(s, 0);
    let signed = i < s.len() && (s[i] == 45 || s[i] == 43);
    let a = if signed { i + 1 } else { i };
    let e = digit_end(s, a);
    if e == a {
        None
    } else {
        let mag = digits_val(s, a, e);
        let v = if signed && s[i] == 45 { -mag } else { mag };
        if i64::MIN <= v <= i64::MAX {
            Some(v)
        } else {
            None
        }
    }
}

/// The integer after the first occurrence of `key` in `data`.
pub open spec fn spec_int_after_key(data: Seq<u8>, key: Seq<u8>) -> Option<int> {
    match spec_find_subslice(data, key) {
        None => None,
        Some(pos) => int_at(data.subrange(pos + key.len(), data.len() as int)),
    }
}

/// The bytes of ASCII text.
pub open spec fn ascii_bytes(t: Seq<char>) -> Seq<u8> {
    t.map_values(|c: char| c as u8)
}

proof fn lemma_digits_val_of_dec(s: Seq<u8>, a: int, n: nat)
    requires
        0 <= a,
        a + dec(n).len() <= s.len(),
        forall|k: int| 0 <= k < dec(n).len() ==> s[a + k] == #[trigger] (dec(n)[k] as u8),
    ensures
        digits_val(s, a, a + dec(n).len()) == n,
        forall|j: int| a <= j < a + dec(n).len() ==> is_digit_byte(#[trigger] s[j]),
    decreases n,
{
    let t = dec(n);
    let d = n % 10;
    assert(t.last() == crate::textbuf::digit_char(d));
    assert(crate::textbuf::digit_char(d) as u8 == d + 48);
    assert(s[a + t.len() - 1] == (t[t.len() - 1] as u8));
    if n >= 10 {
        let p = dec(n / 10);
        assert(t.drop_last() =~= p);
        assert forall|k: int| 0 <= k < p.len() implies s[a + k] == #[trigger] (p[k] as u8) by {
            assert(t[k] == p[k]);
        }
        lemma_digits_val_of_dec(s, a, n / 10);
        assert forall|j: int| a <= j < a + t.len() implies is_digit_byte(#[trigger] s[j]) by {
            if j < a + p.len() {
            } else {
                assert(j == a + t.len() - 1);
            }
        }
    } else {
        assert(t.len() == 1);
        assert(digits_val(s, a, a) == 0);
        assert forall|j: int| a <= j < a + t.len() implies is_digit_byte(#[trigger] s[j]) by {
            assert(j == a);
        }
    }
}

proof fn lemma_digit_end_at(s: Seq<u8>, i: int, e: int)
    requires
        0 <= i <= e <= s.len(),
        forall|j: int| i <= j < e ==> is_digit_byte(#[trigger] s[j]),
        e == s.len() || !is_digit_byte(s[e]),
    ensures
        digit_end(s, i) == e,
    decreases e - i,
{
    if i < e {
        lemma_digit_end_at(s, i + 1, e);
    }
}

/// A number written in decimal reads back as itself: for every `i64`, its
/// decimal text (with `-` when negative) followed by anything that does
/// not start with a digit is read as that number.
pub proof fn law_integer_reads_back(v: i64, tail: Seq<u8>)
    requires
        tail.len() == 0 || !is_digit_byte(tail[0]),
    ensures
        int_at(ascii_bytes(dec_int(v as int)) + tail) == Some(v as int),
{
    let t = dec_int(v as int);
    let s = ascii_bytes(t) + tail;
    let n: nat = if v < 0 { (-v) as nat } else { v as nat };
    let a: int = if v < 0 { 1 } else { 0 };
    let body = dec(n);
    assert(t.len() == a + body.len());
    assert forall|k: int| 0 <= k < body.len() implies s[a + k] == #[trigger] (body[k] as u8) by {
        assert(t[a + k] == body[k]);
    }
    lemma_digits_val_of_dec(s, a, n);
    let e = a + body.len();
    if e < s.len() {
        assert(s[e] == tail[0]);
    }
    lemma_digit_end_at(s, a, e);
    assert(body.len() > 0);
    if v < 0 {
        assert(s[0] == 45);
    } else {
        assert(is_digit_byte(s[0]));
    }
    assert(skip_pad(s, 0) == 0);
}

proof fn lemma_digit_end(s: Seq<u8>, i: int)
    requires
        0 <= i <= s.len(),
    ensures
        i <= digit_end(s, i) <= s.len(),
        forall|j: int| i <= j < digit_end(s, i) ==> is_digit_byte(#[trigger] s[j]),
    decreases s.len() - i,
{
    if i < s.len() && is_digit_byte(s[i]) {
        lemma_digit_end(s, i + 1);
    }
}

proof fn lemma_digits_val_mono(s: Seq<u8>, a: int, e1: int, e2: int)
    requires
        a <= e1 <= e2 <= s.len(),
        0 <= a,
        forall|j: int| a <= j < e2 ==> is_digit_byte(#[trigger] s[j]),
    ensures
        0 <= digits_val(s, a, e1) <= digits_val(s, a, e2),
    decreases e2 - a,
{
    if e2 > e1 {
        lemma_digits_val_mono(s, a, e1, e2 - 1);
        assert(is_digit_byte(s[e2 - 1]));
    } else if e1 > a {
        lemma_digits_val_mono(s, a, e1 - 1, e1 - 1);
        assert(is_digit_byte(s[e1 - 1]));
    }
}

/// The integer at the start of `data[lo..hi]`, as `int_at` reads it.
fn int_at_range(data: &[u8], lo: usize, hi: usize) -> (r: Option<i64>)
    requires
        lo <= hi <= data@.len(),
    ensures
        match r {
            Some(x) => int_at(data@.subrange(lo as int, hi as int)) == Some(x as int),
            None => int_at(data@.subrange(lo as int, hi as int)) is None,
        },
{
    let ghost s = data@.subrange(lo as int, hi as int);
    let n = hi - lo;
    let mut i: usize = 0;
    while i < n && (data[lo + i] == 32 || data[lo + i] == 13 || data[lo + i] == 10)
        invariant
            lo <= hi <= data@.len(),
            n == hi - lo,
            s == data@.subrange(lo as int, hi as int),
            i <= n,
            skip_pad(s, i as int) == skip_pad(s, 0),
        decreases n - i,
    {
        assert(s[i as int] == data@[lo + i]);
        i = i + 1;
    }
    assert(i < n ==> s[i as int] == data@[lo + i]);
    assert(skip_pad(s, 0) == i);
    assert(i < n ==> s[i as int] == data@[lo + i]);
    let mut a = i;
    let mut neg = false;
    if i < n && (data[lo + i] == 45 || data[lo + i] == 43) {
        neg = data[lo + i] == 45;
        a = i + 1;
    }
    let mut k = a;
    let mut acc: u128 = 0;
    while k < n && data[lo + k] >= 48 && data[lo + k] <= 57
        invariant
            lo <= hi <= data@.len(),
            n == hi - lo,
            s == data@.subrange(lo as int, hi as int),
            a <= k <= n,
            i <= n,
            skip_pad(s, 0) == i,
            a as int == (if i < n && (s[i as int] == 45 || s[i as int] == 43) { i + 1 } else { i as int }),
            neg == (i < n && s[i as int] == 45),
            digit_end(s, k as int) == digit_end(s, a as int),
            acc == digits_val(s, a as int, k as int),
            acc <= 0x8000_0000_0000_0000u128,
            forall|j: int| a <= j < k ==> is_digit_byte(#[trigger] s[j]),
        decreases n - k,
    {
        assert(s[k as int] == data@[lo + k]);
        acc = acc * 10 + (data[lo + k] - 48) as u128;
        k = k + 1;
        if acc > 0x8000_0000_0000_0000u128 {
            proof {
                lemma_digit_end(s, k as int);
                let e = digit_end(s, a as int);
                lemma_digits_val_mono(s, a as int, k as int, e);
            }
            return None;
        }
    }
    assert(k < n ==> s[k as int] == data@[lo + k]);
    assert(digit_end(s, a as int) == k);
    if k == a {
        return None;
    }
    if neg {
        let v: i128 = -(acc as i128);
        Some(v as i64)
    } else if acc > 0x7fff_ffff_ffff_ffffu128 {
        None
    } else {
        Some(acc as i64)
    }
}

/// The integer after the first occurrence of `key` in `data[lo..hi]`.
fn int_after_key_in(data: &[u8], lo: usize, hi: usize, key: &[u8]) -> (r: Option<i64>)
    requires
        lo <= hi <= data@.len(),
    ensures
        match r {
            Some(x) => spec_int_after_key(data@.subrange(lo as int, hi as int), key@) == Some(
                x as int,
            ),
            None => spec_int_after_key(data@.subrange(lo as int, hi as int), key@) is None,
        },
{
    let ghost sub = data@.subrange(lo as int, hi as int);
    match find_in(data, lo, hi, key) {
        None => None,
        Some(pos) => {
            proof {
                lemma_first_match(sub, key@);
                assert(first_match_at(sub, key@, pos as int));
                assert(match_at(sub, key@, pos as int));
            }
            let base = lo + pos + key.len();
            assert(sub.subrange(pos + key@.len(), sub.len() as int) =~= data@.subrange(
                base as int,
                hi as int,
            ));
            int_at_range(data, base, hi)
        },
    }
}

/// Finds `key` in raw dictionary bytes and reads the integer after it, past
/// any spaces, CRs and LFs; a sign may lead it. Nothing comes back when the
/// key is absent, no digit follows, or the number does not fit in an `i64`.
pub fn extract_int_after_key(data: &[u8], key: &[u8]) -> (r: Option<i64>)
    requires
        key@.len() > 0,
    ensures
        match r {
            Some(x) => spec_int_after_key(data@, key@) == Some(x as int),
            None => spec_int_after_key(data@, key@) is None,
        },
{
    assert(data@.subrange(0, data@.len() as int) =~= data@);
    int_after_key_in(data, 0, data.len(), key)
}

/// The integer-valued entries of an encryption dictionary that the report
/// reads; `None` where the key is absent or its value is not an integer.
#[derive(Clone, Copy, Debug, PartialEq, Eq, Structural)]
pub struct EncryptEntries {
    pub v: Option<i64>,
    pub r: Option<i64>,
    pub length: Option<i64>,
    pub p: Option<i64>,
}

/// What the report says about a document's encryption.
#[derive(Debug)]
pub struct SecurityInfo {
    pub encrypted: bool,
    pub algorithm: String,
    pub version: i64,
    pub revision: i64,
    pub key_length: i64,
    pub permissions_raw: i64,
    /// `None` for an unencrypted document, which has no permission table.
    pub permissions: Option<Permissions>,
    pub encrypt_object: Option<u32>,
}

pub open spec fn or_default(o: Option<i64>, d: i64) -> i64 {
    match o {
        Some(x) => x,
        None => d,
    }
}

/// `info` reports an encrypted document with these dictionary values.
pub open spec fn describes(
    info: SecurityInfo,
    v: i64,
    r: i64,
    length: i64,
    p: i64,
    obj: Option<u32>,
) -> bool {
    &&& info.encrypted
    &&& info.algorithm@ == algorithm_text(v as int, length as int)
    &&& info.version == v
    &&& info.revision == r
    &&& info.key_length == length
    &&& info.permissions_raw == p
    &&& info.permissions == Some(permissions_of(p))
    &&& info.encrypt_object == obj
}

/// `info` reports the dictionary `e`, with `/V`, `/R` and `/P` defaulting to
/// 0 and `/Length` to 40 bits.
pub open spec fn describes_entries(info: SecurityInfo, e: EncryptEntries, obj: Option<u32>) -> bool {
    describes(
        info,
        or_default(e.v, 0),
        or_default(e.r, 0),
        or_default(e.length, 40),
        or_default(e.p, 0),
        obj,
    )
}

/// `info` reports a document without encryption.
pub open spec fn is_unencrypted(info: SecurityInfo) -> bool {
    &&& !info.encrypted
    &&& info.algorithm@ == "-"@
    &&& info.version == 0
    &&& info.revision == 0
    &&& info.key_length == 0
    &&& info.permissions_raw == 0
    &&& info.permissions is None
    &&& info.encrypt_object is None
}

fn opt_or(o: Option<i64>, d: i64) -> (r: i64)
    ensures
        r == or_default(o, d),
{
    match o {
        Some(x) => x,
        None => d,
    }
}

/// The report for an encryption dictionary, found as object `encrypt_object`
/// when it is an indirect object.
pub fn build_security_info(dict: &EncryptEntries, encrypt_object: Option<u32>) -> (r: SecurityInfo)
    ensures
        describes_entries(r, *dict, encrypt_object),
{
    let v = opt_or(dict.v, 0);
    let r = opt_or(dict.r, 0);
    let length = opt_or(dict.length, 40);
    let p = opt_or(dict.p, 0);
    SecurityInfo {
        encrypted: true,
        algorithm: algorithm_name(v, length),
        version: v,
        revision: r,
        key_length: length,
        permissions_raw: p,
        permissions: Some(decode_permissions(p)),
        encrypt_object,
    }
}

fn unencrypted_info() -> (r: SecurityInfo)
    ensures
        is_unencrypted(r),
{
    let mut algorithm = String::new();
    push_str(&mut algorithm, "-");
    SecurityInfo {
        encrypted: false,
        algorithm,
        version: 0,
        revision: 0,
        key_length: 0,
        permissions_raw: 0,
        permissions: None,
        encrypt_object: None,
    }
}

/// The ASCII decimal digits of `n`.
pub open spec fn dec_bytes(n: nat) -> Seq<u8>
    decreases n,
{
    if n < 10 {
        seq![(n + 48) as u8]
    } else {
        dec_bytes(n / 10).push(((n % 10) + 48) as u8)
    }
}

fn push_dec_bytes(v: &mut Vec<u8>, n: u64)
    ensures
        final(v)@ == old(v)@ + dec_bytes(n as nat),
    decreases n,
{
    if n < 10 {
        v.push((n as u8) + 48);
        assert(old(v)@ + dec_bytes(n as nat) =~= old(v)@.push(((n as nat) + 48) as u8));
    } else {
        push_dec_bytes(v, n / 10);
        v.push(((n % 10) as u8) + 48);
        assert(old(v)@ + dec_bytes(n as nat) =~= (old(v)@ + dec_bytes((n / 10) as nat)).push(
            (((n % 10) as nat) + 48) as u8,
        ));
    }
}

/// The header `N 0 obj` of object number `n`.
pub open spec fn obj_marker(n: u32) -> Seq<u8> {
    dec_bytes(n as nat) + seq![32u8, 48, 32, 111, 98, 106]
}

/// The bytes of a dictionary opening, `<<`.
pub open spec fn dict_open() -> Seq<u8> {
    seq![60u8, 60]
}

/// The raw dictionary of object `n`: from the first `<<` within 1024 bytes
/// after the object's first `N 0 obj` header to the end of that window.
pub open spec fn raw_dict_window(data: Seq<u8>, n: u32) -> Option<Seq<u8>> {
    match spec_find_subslice(data, obj_marker(n)) {
        None => None,
        Some(pos) => {
            let start = pos + obj_marker(n).len();
            let end = if data.len() - start > 1024 { start + 1024 } else { data.len() as int };
            let window = data.subrange(start, end);
            match spec_find_subslice(window, dict_open()) {
                None => None,
                Some(d) => Some(window.subrange(d, window.len() as int)),
            }
        },
    }
}

pub open spec fn as_i64(o: Option<int>) -> Option<i64> {
    match o {
        Some(x) => Some(x as i64),
        None => None,
    }
}

/// The keys `/V`, `/R`, `/Length` and `/P`.
pub open spec fn key_v() -> Seq<u8> {
    seq![47u8, 86]
}

pub open spec fn key_r() -> Seq<u8> {
    seq![47u8, 82]
}

pub open spec fn key_length() -> Seq<u8> {
    seq![47u8, 76, 101, 110, 103, 116, 104]
}

pub open spec fn key_p() -> Seq<u8> {
    seq![47u8, 80]
}

/// The entries read from raw dictionary bytes.
pub open spec fn raw_entries(dict: Seq<u8>) -> EncryptEntries {
    EncryptEntries {
        v: as_i64(spec_int_after_key(dict, key_v())),
        r: as_i64(spec_int_after_key(dict, key_r())),
        length: as_i64(spec_int_after_key(dict, key_length())),
        p: as_i64(spec_int_after_key(dict, key_p())),
    }
}

fn read_key(data: &[u8], lo: usize, hi: usize, key: &[u8]) -> (r: Option<i64>)
    requires
        lo <= hi <= data@.len(),
    ensures
        r == as_i64(spec_int_after_key(data@.subrange(lo as int, hi as int), key@)),
{
    int_after_key_in(data, lo, hi, key)
}

/// Reads the encryption dictionary of object `obj_num` straight from the
/// file's bytes, for when a loader has consumed it: finds the object's
/// header, then the `<<` that follows within 1024 bytes, and reads the
/// integer keys from there.
pub fn parse_encrypt_from_raw_bytes(data: &[u8], obj_num: u32) -> (r: Option<SecurityInfo>)
    ensures
        match raw_dict_window(data@, obj_num) {
            Some(d) => r is Some && describes_entries(r->0, raw_entries(d), Some(obj_num)),
            None => r is None,
        },
{
    let mut marker: Vec<u8> = Vec::new();
    push_dec_bytes(&mut marker, obj_num as u64);
    marker.push(32);
    marker.push(48);
    marker.push(32);
    marker.push(111);
    marker.push(98);
    marker.push(106);
    assert(marker@ =~= obj_marker(obj_num));
    assert(data@.subrange(0, data@.len() as int) =~= data@);
    let pos = match find_in(data, 0, data.len(), marker.as_slice()) {
        None => {
            return None;
        },
        Some(pos) => pos,
    };
    proof {
        lemma_first_match(data@, marker@);
        assert(match_at(data@, marker@, pos as int));
    }
    let start = pos + marker.len();
    let end = if data.len() - start > 1024 {
        start + 1024
    } else {
        data.len()
    };
    let ghost window = data@.subrange(start as int, end as int);
    let open: Vec<u8> = vec![60, 60];
    assert(open@ =~= dict_open());
    let d = match find_in(data, start, end, open.as_slice()) {
        None => {
            return None;
        },
        Some(d) => d,
    };
    proof {
        lemma_first_match(window, open@);
        assert(match_at(window, open@, d as int));
    }
    let lo = start + d;
    assert(window.subrange(d as int, window.len() as int) =~= data@.subrange(lo as int, end as int));
    let kv: Vec<u8> = vec![47, 86];
    assert(kv@ =~= key_v());
    let kr: Vec<u8> = vec![47, 82];
    assert(kr@ =~= key_r());
    let kl: Vec<u8> = vec![47, 76, 101, 110, 103, 116, 104];
    assert(kl@ =~= key_length());
    let kp: Vec<u8> = vec![47, 80];
    assert(kp@ =~= key_p());
    let entries = EncryptEntries {
        v: read_key(data, lo, end, kv.as_slice()),
        r: read_key(data, lo, end, kr.as_slice()),
        length: read_key(data, lo, end, kl.as_slice()),
        p: read_key(data, lo, end, kp.as_slice()),
    };
    Some(build_security_info(&entries, Some(obj_num)))
}

/// How a document's `/Encrypt` entry stands in one place that is searched.
#[derive(Clone, Copy, Debug, PartialEq, Eq, Structural)]
pub enum EncryptSource {
    /// No `/Encrypt` key.
    Missing,
    /// A reference to object `obj`; `dict` holds that object's entries when
    /// it resolves to a dictionary.
    Reference { obj: u32, dict: Option<EncryptEntries> },
    /// A dictionary written in place.
    Inline(EncryptEntries),
    /// Any other value.
    Other,
}

/// One object of the document as the encryption search sees it.
#[derive(Clone, Copy, Debug, PartialEq, Eq, Structural)]
pub struct ObjectProbe {
    /// A stream whose `/Type` is `/XRef`.
    pub is_xref_stream: bool,
    /// The `/Encrypt` entry of the stream's dictionary.
    pub encrypt: EncryptSource,
}

/// Where the search for the encryption dictionary ends.
#[derive(Clone, Copy, Debug, PartialEq, Eq, Structural)]
pub enum SecurityLookup {
    /// A dictionary, and its object number when it is an indirect object.
    Found(EncryptEntries, Option<u32>),
    /// A reference whose object no longer resolves: the dictionary must be
    /// read from the file's raw bytes.
    RawScan(u32),
    /// No encryption dictionary anywhere.
    NotFound,
}

/// The trailer's `/Encrypt`: a reference that resolves to a dictionary, or a
/// dictionary in place.
pub open spec fn trailer_lookup(t: EncryptSource) -> SecurityLookup {
    match t {
        EncryptSource::Reference { obj, dict: Some(d) } => SecurityLookup::Found(d, Some(obj)),
        EncryptSource::Inline(d) => SecurityLookup::Found(d, None),
        _ => SecurityLookup::NotFound,
    }
}

/// The first cross-reference stream, in object order, whose `/Encrypt` is a
/// reference or a dictionary decides; a reference that does not resolve asks
/// for the raw bytes.
pub open spec fn xref_lookup(objs: Seq<ObjectProbe>) -> SecurityLookup
    decreases objs.len(),
{
    if objs.len() == 0 {
        SecurityLookup::NotFound
    } else {
        let o = objs[0];
        let rest = xref_lookup(objs.drop_first());
        if !o.is_xref_stream {
            rest
        } else {
            match o.encrypt {
                EncryptSource::Reference { obj, dict: Some(d) } => SecurityLookup::Found(d, Some(obj)),
                EncryptSource::Reference { obj, dict: None } => SecurityLookup::RawScan(obj),
                EncryptSource::Inline(d) => SecurityLookup::Found(d, None),
                _ => rest,
            }
        }
    }
}

/// The trailer is searched first, then the cross-reference streams.
pub open spec fn spec_locate(t: EncryptSource, objs: Seq<ObjectProbe>) -> SecurityLookup {
    match trailer_lookup(t) {
        SecurityLookup::NotFound => xref_lookup(objs),
        found => found,
    }
}

/// Searches the trailer, then the cross-reference streams, for the
/// encryption dictionary.
pub fn locate_security(trailer: &EncryptSource, objects: &Vec<ObjectProbe>) -> (r: SecurityLookup)
    ensures
        r == spec_locate(*trailer, objects@),
{
    match trailer {
        EncryptSource::Reference { obj, dict: Some(d) } => {
            return SecurityLookup::Found(*d, Some(*obj));
        },
        EncryptSource::Inline(d) => {
            return SecurityLookup::Found(*d, None);
        },
        _ => {},
    }
    let mut i: usize = 0;
    assert(objects@.skip(0) =~= objects@);
    while i < objects.len()
        invariant
            i <= objects@.len(),
            trailer_lookup(*trailer) == SecurityLookup::NotFound,
            xref_lookup(objects@) == xref_lookup(objects@.skip(i as int)),
        decreases objects.len() - i,
    {
        let o = objects[i];
        assert(objects@.skip(i as int).drop_first() =~= objects@.skip(i + 1));
        assert(objects@.skip(i as int)[0] == o);
        if o.is_xref_stream {
            match o.encrypt {
                EncryptSource::Reference { obj, dict: Some(d) } => {
                    return SecurityLookup::Found(d, Some(obj));
                },
                EncryptSource::Reference { obj, dict: None } => {
                    return SecurityLookup::RawScan(obj);
                },
                EncryptSource::Inline(d) => {
                    return SecurityLookup::Found(d, None);
                },
                _ => {},
            }
        }
        i = i + 1;
    }
    assert(objects@.skip(i as int).len() == 0);
    SecurityLookup::NotFound
}

/// What the report says once the search has ended in `lookup`, given the
/// file's raw bytes when they can be read.
pub open spec fn reports(info: SecurityInfo, lookup: SecurityLookup, raw: Option<Seq<u8>>) -> bool {
    match lookup {
        SecurityLookup::Found(d, obj) => describes_entries(info, d, obj),
        SecurityLookup::RawScan(n) => match raw {
            Some(bytes) => match raw_dict_window(bytes, n) {
                Some(d) => describes_entries(info, raw_entries(d), Some(n)),
                None => is_unencrypted(info),
            },
            None => is_unencrypted(info),
        },
        SecurityLookup::NotFound => is_unencrypted(info),
    }
}

pub open spec fn bytes_view(raw: Option<&[u8]>) -> Option<Seq<u8>> {
    match raw {
        Some(b) => Some(b@),
        None => None,
    }
}

/// The encryption report of a document: its trailer's `/Encrypt`, then its
/// cross-reference streams, and as a last resort the file's raw bytes
/// (`raw_file`, when the file could be read).
pub fn collect_security(
    trailer: &EncryptSource,
    objects: &Vec<ObjectProbe>,
    raw_file: Option<&[u8]>,
) -> (r: SecurityInfo)
    ensures
        reports(r, spec_locate(*trailer, objects@), bytes_view(raw_file)),
{
    match locate_security(trailer, objects) {
        SecurityLookup::Found(d, obj) => build_security_info(&d, obj),
        SecurityLookup::RawScan(n) => match raw_file {
            Some(bytes) => match parse_encrypt_from_raw_bytes(bytes, n) {
                Some(info) => info,
                None => unencrypted_info(),
            },
            None => unencrypted_info(),
        },
        SecurityLookup::NotFound => unencrypted_info(),
    }
}

/// The permissions by name, in the order the report lists them.
pub open spec fn permission_rows(p: Permissions) -> Seq<(Seq<char>, bool)> {
    seq![
        ("Print"@, p.print),
        ("Modify"@, p.modify),
        ("Copy/extract text"@, p.copy_extract_text),
        ("Annotate"@, p.annotate),
        ("Fill forms"@, p.fill_forms),
        ("Accessibility extract"@, p.accessibility_extract),
        ("Assemble"@, p.assemble),
        ("Print high quality"@, p.print_high_quality),
    ]
}

/// One permission line of the report.
pub open spec fn permission_line(row: (Seq<char>, bool)) -> Seq<char> {
    "  ["@ + (if row.1 { "YES"@ } else { " NO"@ }) + "] "@ + row.0
}

/// The lines of the text report.
pub open spec fn report_lines(info: SecurityInfo) -> Seq<Seq<char>> {
    if !info.encrypted {
        seq!["Encryption: No"@]
    } else {
        let head = report_head(info);
        let obj = match info.encrypt_object {
            Some(o) => seq!["Encrypt Object: "@ + dec(o as nat)],
            None => Seq::<Seq<char>>::empty(),
        };
        let perm_head = seq![Seq::<char>::empty(), "Permissions (raw: "@ + dec_int(info.permissions_raw as int) + "):"@];
        let perms = match info.permissions {
            Some(p) => permission_rows(p).map_values(|row: (Seq<char>, bool)| permission_line(row)),
            None => Seq::<Seq<char>>::empty(),
        };
        head + obj + perm_head + perms
    }
}

fn text_line(prefix: &str) -> (r: String)
    ensures
        r@ == prefix@,
{
    let mut s = String::new();
    push_str(&mut s, prefix);
    s
}

fn int_line(prefix: &str, n: i64, suffix: &str) -> (r: String)
    ensures
        r@ == prefix@ + dec_int(n as int) + suffix@,
{
    let mut s = String::new();
    push_str(&mut s, prefix);
    push_dec_i64(&mut s, n);
    push_str(&mut s, suffix);
    s
}

fn push_permission_line(lines: &mut Vec<String>, name: &str, allowed: bool)
    ensures
        views(final(lines)@) == views(old(lines)@).push(permission_line((name@, allowed))),
{
    let mut s = String::new();
    push_str(&mut s, "  [");
    push_str(&mut s, if allowed { "YES" } else { " NO" });
    push_str(&mut s, "] ");
    push_str(&mut s, name);
    push_line(lines, s);
}

/// The first lines of the report of an encrypted document.
pub open spec fn report_head(info: SecurityInfo) -> Seq<Seq<char>> {
    seq![
        "Encryption: Yes"@,
        "Algorithm:  "@ + info.algorithm@,
        "Version:    "@ + dec_int(info.version as int),
        "Revision:   "@ + dec_int(info.revision as int),
        "Key Length: "@ + dec_int(info.key_length as int) + " bits"@,
    ]
}

fn push_report_head(lines: &mut Vec<String>, info: &SecurityInfo)
    ensures
        views(final(lines)@) == views(old(lines)@) + report_head(*info),
{
    proof {
        reveal_strlit("");
    }
    push_line(lines, text_line("Encryption: Yes"));
    let mut alg = String::new();
    push_str(&mut alg, "Algorithm:  ");
    push_str(&mut alg, info.algorithm.as_str());
    push_line(lines, alg);
    push_line(lines, int_line("Version:    ", info.version, ""));
    push_line(lines, int_line("Revision:   ", info.revision, ""));
    push_line(lines, int_line("Key Length: ", info.key_length, " bits"));
    assert(views(lines@) =~= views(old(lines)@) + report_head(*info));
}

fn push_permission_lines(lines: &mut Vec<String>, p: Permissions)
    ensures
        views(final(lines)@) == views(old(lines)@) + permission_rows(p).map_values(
            |row: (Seq<char>, bool)| permission_line(row),
        ),
{
    push_permission_line(lines, "Print", p.print);
    push_permission_line(lines, "Modify", p.modify);
    push_permission_line(lines, "Copy/extract text", p.copy_extract_text);
    push_permission_line(lines, "Annotate", p.annotate);
    push_permission_line(lines, "Fill forms", p.fill_forms);
    push_permission_line(lines, "Accessibility extract", p.accessibility_extract);
    push_permission_line(lines, "Assemble", p.assemble);
    push_permission_line(lines, "Print high quality", p.print_high_quality);
    assert(views(lines@) =~= views(old(lines)@) + permission_rows(p).map_values(
        |row: (Seq<char>, bool)| permission_line(row),
    ));
}

/// The text report of `info`, line by line.
pub fn security_report(info: &SecurityInfo) -> (r: Vec<String>)
    ensures
        views(r@) == report_lines(*info),
{
    let mut lines: Vec<String> = Vec::new();
    assert(views(lines@) =~= Seq::<Seq<char>>::empty());
    if !info.encrypted {
        push_line(&mut lines, text_line("Encryption: No"));
        assert(views(lines@) =~= report_lines(*info));
        return lines;
    }
    push_report_head(&mut lines, info);
    let ghost obj = match info.encrypt_object {
        Some(o) => seq!["Encrypt Object: "@ + dec(o as nat)],
        None => Seq::<Seq<char>>::empty(),
    };
    match info.encrypt_object {
        Some(o) => {
            let mut s = String::new();
            push_str(&mut s, "Encrypt Object: ");
            push_dec(&mut s, o as u64);
            push_line(&mut lines, s);
        },
        None => {},
    }
    assert(views(lines@) =~= report_head(*info) + obj);
    let empty = String::new();
    assert(empty@ =~= Seq::<char>::empty());
    push_line(&mut lines, empty);
    push_line(&mut lines, int_line("Permissions (raw: ", info.permissions_raw, "):"));
    let ghost before = views(lines@);
    match info.permissions {
        Some(p) => {
            push_permission_lines(&mut lines, p);
        },
        None => {
            assert(views(lines@) =~= before + Seq::<Seq<char>>::empty());
        },
    }
    assert(views(lines@) =~= report_lines(*info));
    lines
}

} // verus!
