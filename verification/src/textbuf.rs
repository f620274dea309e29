//! Character-level helpers for reading and building text.
use vstd::prelude::*;
use vstd::string::StringExecFns;

verus! {

broadcast use vstd::string::group_string_axioms;

/// Unicode `White_Space`: the characters that `char::is_whitespace` accepts.
pub open spec fn is_ws(c: char) -> bool {
    ||| ('\u{9}' <= c && c <= '\u{d}')
    ||| c == ' '
    ||| c == '\u{85}'
    ||| c == '\u{a0}'
    ||| c == '\u{1680}'
    ||| ('\u{2000}' <= c && c <= '\u{200a}')
    ||| c == '\u{2028}'
    ||| c == '\u{2029}'
    ||| c == '\u{202f}'
    ||| c == '\u{205f}'
    ||| c == '\u{3000}'
}

/// Whether `c` is Unicode white space.
pub fn is_whitespace_char(c: char) -> (r: bool)
    ensures
        r == is_ws(c),
{
    ('\u{9}' <= c && c <= '\u{d}') || c == ' ' || c == '\u{85}' || c == '\u{a0}' || c == '\u{1680}'
        || ('\u{2000}' <= c && c <= '\u{200a}') || c == '\u{2028}' || c == '\u{2029}' || c
        == '\u{202f}' || c == '\u{205f}' || c == '\u{3000}'
}

/// Number of leading white-space characters.
pub open spec fn lead_ws(s: Seq<char>) -> nat
    decreases s.len(),
{
    if s.len() > 0 && is_ws(s[0]) {
        1 + lead_ws(s.drop_first())
    } else {
        0
    }
}

/// `s` without its trailing white space.
pub open spec fn trim_end(s: Seq<char>) -> Seq<char>
    decreases s.len(),
{
    if s.len() > 0 && is_ws(s.last()) {
        trim_end(s.drop_last())
    } else {
        s
    }
}

/// `s` without leading and trailing white space (as `str::trim`).
pub open spec fn trim(s: Seq<char>) -> Seq<char> {
    trim_end(s.skip(lead_ws(s) as int))
}

/// Every character of `s` is white space.
pub open spec fn all_ws(s: Seq<char>) -> bool {
    forall|i: int| 0 <= i < s.len() ==> is_ws(#[trigger] s[i])
}

pub proof fn lemma_lead_ws(s: Seq<char>)
    ensures
        lead_ws(s) <= s.len(),
        forall|i: int| 0 <= i < lead_ws(s) ==> is_ws(#[trigger] s[i]),
        lead_ws(s) < s.len() ==> !is_ws(s[lead_ws(s) as int]),
    decreases s.len(),
{
    if s.len() > 0 && is_ws(s[0]) {
        lemma_lead_ws(s.drop_first());
        assert forall|i: int| 0 <= i < lead_ws(s) implies is_ws(#[trigger] s[i]) by {
            if i > 0 {
                assert(s[i] == s.drop_first()[i - 1]);
            }
        }
    }
}

pub proof fn lemma_trim_end(s: Seq<char>)
    ensures
        trim_end(s) == s.take(trim_end(s).len() as int),
        trim_end(s).len() <= s.len(),
        trim_end(s).len() > 0 ==> !is_ws(trim_end(s).last()),
        forall|i: int| trim_end(s).len() <= i < s.len() ==> is_ws(#[trigger] s[i]),
    decreases s.len(),
{
    if s.len() > 0 && is_ws(s.last()) {
        lemma_trim_end(s.drop_last());
        assert(s.drop_last().take(trim_end(s).len() as int) =~= s.take(trim_end(s).len() as int));
        assert forall|i: int| trim_end(s).len() <= i < s.len() implies is_ws(#[trigger] s[i]) by {
            if i < s.len() - 1 {
                assert(s[i] == s.drop_last()[i]);
            }
        }
    } else {
        assert(s.take(s.len() as int) =~= s);
    }
}

/// Index of the first non-white-space character of `v[lo..hi]` (or `hi`).
fn skip_ws_front(v: &Vec<char>, lo: usize, hi: usize) -> (r: usize)
    requires
        lo <= hi <= v.len(),
    ensures
        r == lo + lead_ws(v@.subrange(lo as int, hi as int)),
        lo <= r <= hi,
{
    let ghost s = v@.subrange(lo as int, hi as int);
    proof {
        lemma_lead_ws(s);
    }
    let mut i = lo;
    while i < hi && is_whitespace_char(v[i])
        invariant
            lo <= i <= hi <= v.len(),
            s == v@.subrange(lo as int, hi as int),
            i - lo <= lead_ws(s),
            lead_ws(s) <= s.len(),
            forall|k: int| 0 <= k < lead_ws(s) ==> is_ws(#[trigger] s[k]),
            lead_ws(s) < s.len() ==> !is_ws(s[lead_ws(s) as int]),
        decreases hi - i,
    {
        assert(s[i - lo] == v@[i as int]);
        i = i + 1;
    }
    if i < hi {
        assert(s[i - lo] == v@[i as int]);
    }
    i
}

/// End index of `v[lo..hi]` with trailing white space removed.
fn skip_ws_back(v: &Vec<char>, lo: usize, hi: usize) -> (r: usize)
    requires
        lo <= hi <= v.len(),
    ensures
        lo <= r <= hi,
        v@.subrange(lo as int, r as int) == trim_end(v@.subrange(lo as int, hi as int)),
    decreases hi - lo,
{
    let ghost s = v@.subrange(lo as int, hi as int);
    if hi > lo && is_whitespace_char(v[hi - 1]) {
        assert(s.last() == v@[hi - 1]);
        let r = skip_ws_back(v, lo, hi - 1);
        assert(s.drop_last() =~= v@.subrange(lo as int, hi - 1));
        r
    } else {
        assert(v@.subrange(lo as int, hi as int) =~= s);
        hi
    }
}

/// Bounds `(a, b)` such that `v[a..b]` is `trim(v[lo..hi])`.
pub fn trim_bounds(v: &Vec<char>, lo: usize, hi: usize) -> (r: (usize, usize))
    requires
        lo <= hi <= v.len(),
    ensures
        lo <= r.0 <= r.1 <= hi,
        v@.subrange(r.0 as int, r.1 as int) == trim(v@.subrange(lo as int, hi as int)),
{
    let a = skip_ws_front(v, lo, hi);
    let b = skip_ws_back(v, a, hi);
    let ghost s = v@.subrange(lo as int, hi as int);
    assert(s.skip(lead_ws(s) as int) =~= v@.subrange(a as int, hi as int));
    (a, b)
}

/// The characters of a string slice, in order.
pub fn str_chars(s: &str) -> (v: Vec<char>)
    ensures
        v@ == s@,
{
    let mut v: Vec<char> = Vec::new();
    for c in it: s.chars()
        invariant
            it.seq() == s@,
            v@ == it.seq().take(it.index() as int),
    {
        v.push(c);
    }
    v
}

/// A copy of `v[lo..hi]`.
pub fn sub_chars(v: &Vec<char>, lo: usize, hi: usize) -> (r: Vec<char>)
    requires
        lo <= hi <= v.len(),
    ensures
        r@ == v@.subrange(lo as int, hi as int),
{
    let mut r: Vec<char> = Vec::new();
    let mut i = lo;
    while i < hi
        invariant
            lo <= i <= hi <= v.len(),
            r@ == v@.subrange(lo as int, i as int),
        decreases hi - i,
    {
        r.push(v[i]);
        i = i + 1;
    }
    r
}

/// Appends one character to a `String`.
///
/// Trusted: `String::push` appends the character at the end.
#[verifier::external_body]
pub fn push_char(s: &mut String, c: char)
    ensures
        final(s)@ == old(s)@.push(c),
{
    s.push(c);
}

/// Appends a string slice to a `String`.
pub fn push_str(s: &mut String, t: &str)
    ensures
        final(s)@ == old(s)@ + t@,
{
    s.append(t);
}

/// Appends the characters `v[lo..hi]` to a `String`.
pub fn push_chars(s: &mut String, v: &Vec<char>, lo: usize, hi: usize)
    requires
        lo <= hi <= v.len(),
    ensures
        final(s)@ == old(s)@ + v@.subrange(lo as int, hi as int),
{
    let mut i = lo;
    while i < hi
        invariant
            lo <= i <= hi <= v.len(),
            s@ == old(s)@ + v@.subrange(lo as int, i as int),
        decreases hi - i,
    {
        push_char(s, v[i]);
        assert(v@.subrange(lo as int, i + 1) =~= v@.subrange(lo as int, i as int).push(v@[i as int]));
        i = i + 1;
    }
}

/// A `String` holding exactly the given characters.
pub fn string_of(v: &Vec<char>) -> (s: String)
    ensures
        s@ == v@,
{
    let mut s = String::new();
    push_chars(&mut s, v, 0, v.len());
    assert(v@.subrange(0, v@.len() as int) =~= v@);
    s
}

/// The ASCII digit for `d < 10`.
pub open spec fn digit_char(d: nat) -> char {
    ((d + 48) as u8) as char
}

/// Decimal digits of `n`, most significant first, without leading zeros.
pub open spec fn dec(n: nat) -> Seq<char>
    decreases n,
{
    if n < 10 {
        seq![digit_char(n)]
    } else {
        dec(n / 10).push(digit_char(n % 10))
    }
}

/// Decimal text of a signed integer, with a leading `-` when negative.
pub open spec fn dec_int(n: int) -> Seq<char> {
    if n < 0 {
        seq!['-'] + dec((-n) as nat)
    } else {
        dec(n as nat)
    }
}

/// Appends the decimal digits of `n`.
pub fn push_dec(s: &mut String, n: u64)
    ensures
        final(s)@ == old(s)@ + dec(n as nat),
    decreases n,
{
    if n < 10 {
        push_char(s, ((n as u8) + 48) as char);
        assert(old(s)@ + dec(n as nat) =~= old(s)@.push(digit_char(n as nat)));
    } else {
        push_dec(s, n / 10);
        push_char(s, (((n % 10) as u8) + 48) as char);
        assert(old(s)@ + dec(n as nat) =~= (old(s)@ + dec((n / 10) as nat)).push(
            digit_char((n % 10) as nat),
        ));
    }
}

/// Appends the decimal text of a signed integer.
pub fn push_dec_i64(s: &mut String, n: i64)
    ensures
        final(s)@ == old(s)@ + dec_int(n as int),
{
    if n < 0 {
        push_char(s, '-');
        let m: u64 = if n == i64::MIN {
            9223372036854775808u64
        } else {
            (-n) as u64
        };
        push_dec(s, m);
        assert(old(s)@ + dec_int(n as int) =~= old(s)@.push('-') + dec(m as nat));
    } else {
        push_dec(s, n as u64);
    }
}

/// The decimal text of `n` as a new `String`.
pub fn dec_string(n: u64) -> (s: String)
    ensures
        s@ == dec(n as nat),
{
    let mut s = String::new();
    push_dec(&mut s, n);
    assert(s@ =~= dec(n as nat));
    s
}

/// The decimal text of a signed integer as a new `String`.
pub fn dec_string_i64(n: i64) -> (s: String)
    ensures
        s@ == dec_int(n as int),
{
    let mut s = String::new();
    push_dec_i64(&mut s, n);
    assert(s@ =~= dec_int(n as int));
    s
}

/// Whether `c` is an ASCII decimal digit.
pub open spec fn is_digit(c: char) -> bool {
    '0' <= c && c <= '9'
}

/// Value of a run of ASCII digits (most significant first).
pub open spec fn digits_value(s: Seq<char>) -> nat
    decreases s.len(),
{
    if s.len() == 0 {
        0
    } else {
        digits_value(s.drop_last()) * 10 + ((s.last() as nat) - 48) as nat
    }
}

/// `s` without one leading `+` sign.
pub open spec fn unsigned_body(s: Seq<char>) -> Seq<char> {
    if s.len() > 0 && s[0] == '+' {
        s.drop_first()
    } else {
        s
    }
}

/// Every character of `s` is an ASCII digit.
pub open spec fn all_digits(s: Seq<char>) -> bool {
    forall|i: int| 0 <= i < s.len() ==> is_digit(#[trigger] s[i])
}

/// What `str::parse::<u32>` accepts: an optional `+`, then one or more ASCII
/// digits whose value fits in `u32`.
pub open spec fn parse_u32(s: Seq<char>) -> Option<u32> {
    let body = unsigned_body(s);
    if body.len() > 0 && all_digits(body) && digits_value(body) <= u32::MAX {
        Some(digits_value(body) as u32)
    } else {
        None
    }
}

proof fn lemma_dec_reads_back(n: nat)
    ensures
        digits_value(dec(n)) == n,
        all_digits(dec(n)),
        dec(n).len() > 0,
        dec(n)[0] != '+',
    decreases n,
{
    let d = n % 10;
    assert(digit_char(d) as int == d + 48);
    if n >= 10 {
        lemma_dec_reads_back(n / 10);
        let s = dec(n);
        assert(s.drop_last() =~= dec(n / 10));
        assert(s[0] == dec(n / 10)[0]);
        assert forall|i: int| 0 <= i < s.len() implies is_digit(#[trigger] s[i]) by {
            if i < s.len() - 1 {
                assert(s[i] == dec(n / 10)[i]);
            }
        }
    } else {
        let s = dec(n);
        assert(s.drop_last() =~= Seq::<char>::empty());
        assert(digits_value(s.drop_last()) == 0);
    }
}

/// Reading back a number written in decimal gives the number: the text of
/// every `u32` parses to that same value.
pub proof fn law_decimal_reads_back(n: u32)
    ensures
        parse_u32(dec(n as nat)) == Some(n),
{
    lemma_dec_reads_back(n as nat);
    assert(unsigned_body(dec(n as nat)) == dec(n as nat));
}

/// Parses `v[lo..hi]` as `str::parse::<u32>` would.
pub fn parse_u32_chars(v: &Vec<char>, lo: usize, hi: usize) -> (r: Option<u32>)
    requires
        lo <= hi <= v.len(),
    ensures
        r == parse_u32(v@.subrange(lo as int, hi as int)),
{
    let ghost s = v@.subrange(lo as int, hi as int);
    let mut start = lo;
    if lo < hi && v[lo] == '+' {
        start = lo + 1;
    }
    let ghost body = v@.subrange(start as int, hi as int);
    assert(body =~= unsigned_body(s));
    if start == hi {
        return None;
    }
    let mut acc: u64 = 0;
    let mut i = start;
    while i < hi
        invariant
            lo <= start <= i <= hi <= v.len(),
            body == v@.subrange(start as int, hi as int),
            s == v@.subrange(lo as int, hi as int),
            body == unsigned_body(s),
            acc == digits_value(v@.subrange(start as int, i as int)),
            acc <= u32::MAX,
            forall|k: int| start <= k < i ==> is_digit(#[trigger] v@[k]),
        decreases hi - i,
    {
        let c = v[i];
        if !('0' <= c && c <= '9') {
            assert(body[i - start] == c);
            assert(!is_digit(body[i - start]));
            return None;
        }
        let ghost prev = v@.subrange(start as int, i as int);
        assert(v@.subrange(start as int, i + 1).drop_last() =~= prev);
        acc = acc * 10 + ((c as u64) - 48);
        if acc > 4294967295 {
            proof {
                assert(v@.subrange(start as int, i + 1) =~= body.take(i + 1 - start));
                if all_digits(body) {
                    lemma_digits_value_prefix_mono(body, (i + 1 - start) as int);
                }
            }
            return None;
        }
        i = i + 1;
    }
    assert(v@.subrange(start as int, i as int) =~= body);
    assert forall|k: int| 0 <= k < body.len() implies is_digit(#[trigger] body[k]) by {
        assert(body[k] == v@[start + k]);
    }
    assert(all_digits(body));
    Some(acc as u32)
}

/// The value of a digit string is at least the value of any of its prefixes.
pub proof fn lemma_digits_value_prefix_mono(s: Seq<char>, n: int)
    requires
        0 <= n <= s.len(),
        forall|i: int| 0 <= i < s.len() ==> is_digit(#[trigger] s[i]),
    ensures
        digits_value(s.take(n)) <= digits_value(s),
    decreases s.len(),
{
    if n < s.len() {
        assert(s.drop_last().take(n) =~= s.take(n));
        lemma_digits_value_prefix_mono(s.drop_last(), n);
    } else {
        assert(s.take(n) =~= s);
    }
}

/// `i` is the first position of `c` in `s`.
pub open spec fn first_at(s: Seq<char>, c: char, i: int) -> bool {
    &&& 0 <= i < s.len()
    &&& s[i] == c
    &&& forall|j: int| 0 <= j < i ==> s[j] != c
}

/// The first position of `c` in `s`, if any (as `str::find` / `split_once`).
pub open spec fn find_first(s: Seq<char>, c: char) -> Option<int> {
    if exists|i: int| first_at(s, c, i) {
        Some(choose|i: int| first_at(s, c, i))
    } else {
        None
    }
}

pub proof fn lemma_find_first(s: Seq<char>, c: char)
    ensures
        match find_first(s, c) {
            Some(i) => first_at(s, c, i),
            None => forall|j: int| 0 <= j < s.len() ==> s[j] != c,
        },
{
    if !(exists|i: int| first_at(s, c, i)) {
        assert forall|j: int| 0 <= j < s.len() implies s[j] != c by {
            if s[j] == c {
                lemma_least_position(s, c, j);
            }
        }
    }
}

proof fn lemma_least_position(s: Seq<char>, c: char, j: int)
    requires
        0 <= j < s.len(),
        s[j] == c,
    ensures
        exists|i: int| first_at(s, c, i),
    decreases j,
{
    if exists|m: int| 0 <= m < j && s[m] == c {
        let m = choose|m: int| 0 <= m < j && s[m] == c;
        lemma_least_position(s, c, m);
    } else {
        assert(first_at(s, c, j));
    }
}

/// First position of `c` in `v[lo..hi]`, as an index into `v`.
pub fn find_char(v: &Vec<char>, lo: usize, hi: usize, c: char) -> (r: Option<usize>)
    requires
        lo <= hi <= v.len(),
    ensures
        match r {
            Some(i) => find_first(v@.subrange(lo as int, hi as int), c) == Some(i - lo) && lo <= i
                < hi,
            None => find_first(v@.subrange(lo as int, hi as int), c) is None,
        },
{
    let ghost s = v@.subrange(lo as int, hi as int);
    let mut i = lo;
    while i < hi
        invariant
            lo <= i <= hi <= v.len(),
            s == v@.subrange(lo as int, hi as int),
            forall|j: int| 0 <= j < i - lo ==> s[j] != c,
        decreases hi - i,
    {
        if v[i] == c {
            assert(first_at(s, c, i - lo));
            proof {
                lemma_find_first(s, c);
                let k = find_first(s, c)->0;
                assert(k == i - lo) by {
                    if k < i - lo {
                        assert(s[k] != c);
                    }
                    if k > i - lo {
                        assert(s[i - lo] == c);
                    }
                }
            }
            return Some(i);
        }
        assert(s[i - lo] == v@[i as int]);
        i = i + 1;
    }
    proof {
        lemma_find_first(s, c);
        if find_first(s, c) is Some {
            let k = find_first(s, c)->0;
            assert(s[k] == c);
        }
    }
    None
}

/// The pieces of `s` between occurrences of `c` (as `str::split`).
pub open spec fn split_pieces(s: Seq<char>, c: char) -> Seq<Seq<char>>
    decreases s.len(),
{
    match find_first(s, c) {
        Some(i) => if 0 <= i < s.len() {
            seq![s.take(i)] + split_pieces(s.skip(i + 1), c)
        } else {
            seq![s]
        },
        None => seq![s],
    }
}

/// `prefix`, then `v[lo..hi]`, then a closing quote `'`.
pub fn quoted(prefix: &str, v: &Vec<char>, lo: usize, hi: usize) -> (r: String)
    requires
        lo <= hi <= v.len(),
    ensures
        r@ == prefix@ + v@.subrange(lo as int, hi as int) + "'"@,
{
    let mut r = String::new();
    push_str(&mut r, prefix);
    push_chars(&mut r, v, lo, hi);
    push_str(&mut r, "'");
    assert(r@ =~= prefix@ + v@.subrange(lo as int, hi as int) + "'"@);
    r
}

/// `prefix`, the decimal `a`, then ` > `, then the decimal `b`.
pub fn range_msg(prefix: &str, a: u32, b: u32) -> (r: String)
    ensures
        r@ == prefix@ + dec(a as nat) + " > "@ + dec(b as nat),
{
    let mut r = String::new();
    push_str(&mut r, prefix);
    push_dec(&mut r, a as u64);
    push_str(&mut r, " > ");
    push_dec(&mut r, b as u64);
    assert(r@ =~= prefix@ + dec(a as nat) + " > "@ + dec(b as nat));
    r
}

/// The text of each string in `v`.
pub open spec fn views(v: Seq<String>) -> Seq<Seq<char>> {
    v.map_values(|s: String| s@)
}

/// Appends a line to a list of lines.
pub fn push_line(lines: &mut Vec<String>, s: String)
    ensures
        views(final(lines)@) == views(old(lines)@).push(s@),
{
    let ghost t = s@;
    lines.push(s);
    assert(views(lines@) =~= views(old(lines)@).push(t));
}

/// `s` right-aligned in a field of `w` characters: spaces first, when it is
/// shorter.
pub open spec fn pad_left(s: Seq<char>, w: nat) -> Seq<char> {
    if s.len() >= w {
        s
    } else {
        Seq::new((w - s.len()) as nat, |i: int| ' ') + s
    }
}

/// Appends the decimal digits of `n`, right-aligned in `w` characters.
pub fn push_padded_dec(s: &mut String, n: u64, w: usize)
    ensures
        final(s)@ == old(s)@ + pad_left(dec(n as nat), w as nat),
{
    let d = dec_string(n);
    let chars = str_chars(d.as_str());
    let mut k: usize = chars.len();
    while k < w
        invariant
            chars.len() <= k <= w || (k == chars.len() && k >= w),
            s@ == old(s)@ + Seq::new((k - chars.len()) as nat, |i: int| ' '),
        decreases w - k,
    {
        push_char(s, ' ');
        assert(Seq::new((k + 1 - chars.len()) as nat, |i: int| ' ') =~= Seq::new(
            (k - chars.len()) as nat,
            |i: int| ' ',
        ).push(' '));
        k = k + 1;
    }
    push_chars(s, &chars, 0, chars.len());
    assert(chars@.subrange(0, chars@.len() as int) =~= chars@);
    if chars.len() >= w {
        assert(Seq::new(0nat, |i: int| ' ') =~= Seq::<char>::empty());
        assert(s@ =~= old(s)@ + pad_left(dec(n as nat), w as nat));
    } else {
        assert(s@ =~= old(s)@ + pad_left(dec(n as nat), w as nat));
    }
}

/// `n` occurs in `h` as a contiguous piece (as `str::contains`).
pub open spec fn contains_seq(h: Seq<char>, n: Seq<char>) -> bool {
    exists|i: int| 0 <= i && i + n.len() <= h.len() && #[trigger] h.subrange(i, i + n.len()) == n
}

/// `h` begins with `n` (as `str::starts_with`).
pub open spec fn starts_with_seq(h: Seq<char>, n: Seq<char>) -> bool {
    n.len() <= h.len() && h.subrange(0, n.len() as int) == n
}

fn chars_match_at(h: &Vec<char>, n: &Vec<char>, i: usize) -> (r: bool)
    requires
        i + n@.len() <= h@.len(),
    ensures
        r == (h@.subrange(i as int, i + n@.len()) == n@),
{
    let mut k: usize = 0;
    while k < n.len()
        invariant
            k <= n@.len(),
            i + n@.len() <= h@.len(),
            forall|m: int| 0 <= m < k ==> h@[i + m] == n@[m],
        decreases n.len() - k,
    {
        assert(i + k < h.len());
        if h[i + k] != n[k] {
            assert(h@.subrange(i as int, i + n@.len())[k as int] != n@[k as int]);
            return false;
        }
        k = k + 1;
    }
    assert(h@.subrange(i as int, i + n@.len()) =~= n@);
    true
}

/// Whether `n` occurs in `h`.
pub fn chars_contain(h: &Vec<char>, n: &Vec<char>) -> (r: bool)
    ensures
        r == contains_seq(h@, n@),
{
    if n.len() > h.len() {
        return false;
    }
    if n.len() == 0 {
        assert(h@.subrange(0int, 0int + n@.len()) =~= n@);
        return true;
    }
    let last = h.len() - n.len();
    let mut i: usize = 0;
    while i <= last
        invariant
            last + n@.len() == h@.len(),
            last < h.len(),
            i <= last + 1,
            forall|j: int|
                0 <= j < i ==> #[trigger] h@.subrange(j, j + n@.len()) != n@,
        decreases last + 1 - i,
    {
        if chars_match_at(h, n, i) {
            return true;
        }
        i = i + 1;
    }
    false
}

/// Whether `s` begins with `n`.
pub fn chars_start_with(h: &Vec<char>, n: &Vec<char>) -> (r: bool)
    ensures
        r == starts_with_seq(h@, n@),
{
    if n.len() > h.len() {
        return false;
    }
    chars_match_at(h, n, 0)
}

/// Whether two character vectors hold the same characters.
pub fn chars_eq(a: &Vec<char>, b: &Vec<char>) -> (r: bool)
    ensures
        r == (a@ == b@),
{
    if a.len() != b.len() {
        return false;
    }
    let mut i: usize = 0;
    while i < a.len()
        invariant
            a@.len() == b@.len(),
            i <= a@.len(),
            forall|j: int| 0 <= j < i ==> a@[j] == b@[j],
        decreases a.len() - i,
    {
        if a[i] != b[i] {
            return false;
        }
        i = i + 1;
    }
    assert(a@ =~= b@);
    true
}

/// Whether two strings hold the same text.
pub fn str_eq(a: &str, b: &str) -> (r: bool)
    ensures
        r == (a@ == b@),
{
    let x = str_chars(a);
    let y = str_chars(b);
    chars_eq(&x, &y)
}

/// Appends the decimal digits of a 128-bit `n`.
pub fn push_dec_u128(s: &mut String, n: u128)
    ensures
        final(s)@ == old(s)@ + dec(n as nat),
    decreases n,
{
    if n < 10 {
        push_char(s, ((n as u8) + 48) as char);
        assert(old(s)@ + dec(n as nat) =~= old(s)@.push(digit_char(n as nat)));
    } else {
        push_dec_u128(s, n / 10);
        push_char(s, (((n % 10) as u8) + 48) as char);
        assert(old(s)@ + dec(n as nat) =~= (old(s)@ + dec((n / 10) as nat)).push(
            digit_char((n % 10) as nat),
        ));
    }
}

/// `s` left-aligned in a field of `w` characters: spaces after, when it is
/// shorter.
pub open spec fn pad_right(s: Seq<char>, w: nat) -> Seq<char> {
    if s.len() >= w {
        s
    } else {
        s + Seq::new((w - s.len()) as nat, |i: int| ' ')
    }
}

/// Appends `t`, left-aligned in `w` characters.
pub fn push_padded_right(s: &mut String, t: &str, w: usize)
    ensures
        final(s)@ == old(s)@ + pad_right(t@, w as nat),
{
    push_str(s, t);
    let n = t.unicode_len();
    let mut k: usize = n;
    let ghost base = s@;
    while k < w
        invariant
            n == t@.len(),
            n <= k,
            k <= w || k == n,
            s@ == base + Seq::new((k - n) as nat, |i: int| ' '),
        decreases w - k,
    {
        push_char(s, ' ');
        assert(Seq::new((k + 1 - n) as nat, |i: int| ' ') =~= Seq::new((k - n) as nat, |i: int| ' ').push(' '));
        k = k + 1;
    }
    if n >= w {
        assert(Seq::new(0nat, |i: int| ' ') =~= Seq::<char>::empty());
    }
    assert(s@ =~= old(s)@ + pad_right(t@, w as nat));
}

/// The pieces with `sep` between each two (as `join`).
pub open spec fn join_with(parts: Seq<Seq<char>>, sep: Seq<char>) -> Seq<char>
    decreases parts.len(),
{
    if parts.len() == 0 {
        Seq::empty()
    } else if parts.len() == 1 {
        parts[0]
    } else {
        join_with(parts.drop_last(), sep) + sep + parts.last()
    }
}

/// Appends the pieces with `sep` between each two.
pub fn push_joined(s: &mut String, parts: &Vec<String>, sep: &str)
    ensures
        final(s)@ == old(s)@ + join_with(views(parts@), sep@),
{
    let ghost pv = views(parts@);
    let mut i: usize = 0;
    assert(pv.take(0) =~= Seq::<Seq<char>>::empty());
    assert(s@ =~= old(s)@ + join_with(pv.take(0), sep@));
    while i < parts.len()
        invariant
            i <= parts@.len(),
            pv == views(parts@),
            s@ == old(s)@ + join_with(pv.take(i as int), sep@),
        decreases parts.len() - i,
    {
        assert(pv.take(i + 1).drop_last() =~= pv.take(i as int));
        assert(pv[i as int] == parts@[i as int]@);
        if i > 0 {
            push_str(s, sep);
        } else {
            assert(pv.take(1) =~= seq![pv[0]]);
        }
        push_str(s, parts[i].as_str());
        assert(s@ =~= old(s)@ + join_with(pv.take(i + 1), sep@));
        i = i + 1;
    }
    assert(pv.take(pv.len() as int) =~= pv);
}

} // verus!
