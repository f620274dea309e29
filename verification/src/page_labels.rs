//! Page labels: the numbering styles of the `/PageLabels` number tree and
//! the label each physical page receives.
use vstd::prelude::*;
use crate::textbuf::{
    dec, dec_int, pad_left, push_char, push_dec, push_dec_i64, push_line, push_padded_dec, push_str,
    str_chars, views,
};

verus! {

/// The value of entry `k` of the Roman numeral table, largest first.
pub open spec fn roman_value(k: int) -> nat {
    if k == 0 {
        1000
    } else if k == 1 {
        900
    } else if k == 2 {
        500
    } else if k == 3 {
        400
    } else if k == 4 {
        100
    } else if k == 5 {
        90
    } else if k == 6 {
        50
    } else if k == 7 {
        40
    } else if k == 8 {
        10
    } else if k == 9 {
        9
    } else if k == 10 {
        5
    } else if k == 11 {
        4
    } else {
        1
    }
}

/// The numeral of entry `k` of the Roman numeral table, in lower case.
pub open spec fn roman_numeral(k: int) -> Seq<char> {
    if k == 0 {
        "m"@
    } else if k == 1 {
        "cm"@
    } else if k == 2 {
        "d"@
    } else if k == 3 {
        "cd"@
    } else if k == 4 {
        "c"@
    } else if k == 5 {
        "xc"@
    } else if k == 6 {
        "l"@
    } else if k == 7 {
        "xl"@
    } else if k == 8 {
        "x"@
    } else if k == 9 {
        "ix"@
    } else if k == 10 {
        "v"@
    } else if k == 11 {
        "iv"@
    } else {
        "i"@
    }
}

/// A lower-case ASCII letter raised to upper case; other characters stay.
pub open spec fn upper_char(c: char) -> char {
    if 'a' <= c && c <= 'z' {
        ((c as u32) - 32) as char
    } else {
        c
    }
}

/// The text in upper case when `upper` holds.
pub open spec fn cased(s: Seq<char>, upper: bool) -> Seq<char> {
    if upper {
        s.map_values(|c: char| upper_char(c))
    } else {
        s
    }
}

/// The Roman numeral of `n` written greedily with the table from entry `k`
/// on: the largest value that still fits is taken, again and again.
pub open spec fn roman_from(n: nat, k: nat) -> Seq<char>
    decreases 13 - k, n,
{
    if k >= 13 {
        Seq::empty()
    } else if n >= roman_value(k as int) {
        roman_numeral(k as int) + roman_from((n - roman_value(k as int)) as nat, k)
    } else {
        roman_from(n, k + 1)
    }
}

/// The Roman numeral of `n`; zero and negative values are written in decimal.
pub open spec fn roman_text(n: int, upper: bool) -> Seq<char> {
    if n <= 0 {
        dec_int(n)
    } else {
        cased(roman_from(n as nat, 0), upper)
    }
}

/// The letter for `d < 26`.
pub open spec fn letter(d: nat, upper: bool) -> char {
    if upper {
        ((d + 65) as u8) as char
    } else {
        ((d + 97) as u8) as char
    }
}

/// The letters for the zero-based index `m`: a..z, then aa..zz, and so on.
pub open spec fn alpha(m: nat, upper: bool) -> Seq<char>
    decreases m,
{
    if m / 26 == 0 {
        seq![letter(m % 26, upper)]
    } else {
        alpha((m / 26 - 1) as nat, upper).push(letter(m % 26, upper))
    }
}

/// The alphabetic label of `n` (1 is `a`, 27 is `aa`); zero and negative
/// values are written in decimal.
pub open spec fn alpha_text(n: int, upper: bool) -> Seq<char> {
    if n <= 0 {
        dec_int(n)
    } else {
        alpha((n - 1) as nat, upper)
    }
}

fn roman_table_value(k: usize) -> (r: u64)
    requires
        k < 13,
    ensures
        r == roman_value(k as int),
{
    if k == 0 {
        1000
    } else if k == 1 {
        900
    } else if k == 2 {
        500
    } else if k == 3 {
        400
    } else if k == 4 {
        100
    } else if k == 5 {
        90
    } else if k == 6 {
        50
    } else if k == 7 {
        40
    } else if k == 8 {
        10
    } else if k == 9 {
        9
    } else if k == 10 {
        5
    } else if k == 11 {
        4
    } else {
        1
    }
}

fn roman_table_numeral(k: usize, upper: bool) -> (r: &'static str)
    requires
        k < 13,
    ensures
        r@ == cased(roman_numeral(k as int), upper),
{
    proof {
        reveal_strlit("m");
        reveal_strlit("M");
        reveal_strlit("cm");
        reveal_strlit("CM");
        reveal_strlit("d");
        reveal_strlit("D");
        reveal_strlit("cd");
        reveal_strlit("CD");
        reveal_strlit("c");
        reveal_strlit("C");
        reveal_strlit("xc");
        reveal_strlit("XC");
        reveal_strlit("l");
        reveal_strlit("L");
        reveal_strlit("xl");
        reveal_strlit("XL");
        reveal_strlit("x");
        reveal_strlit("X");
        reveal_strlit("ix");
        reveal_strlit("IX");
        reveal_strlit("v");
        reveal_strlit("V");
        reveal_strlit("iv");
        reveal_strlit("IV");
        reveal_strlit("i");
        reveal_strlit("I");
    }
    let r = if k == 0 {
        if upper { "M" } else { "m" }
    } else if k == 1 {
        if upper { "CM" } else { "cm" }
    } else if k == 2 {
        if upper { "D" } else { "d" }
    } else if k == 3 {
        if upper { "CD" } else { "cd" }
    } else if k == 4 {
        if upper { "C" } else { "c" }
    } else if k == 5 {
        if upper { "XC" } else { "xc" }
    } else if k == 6 {
        if upper { "L" } else { "l" }
    } else if k == 7 {
        if upper { "XL" } else { "xl" }
    } else if k == 8 {
        if upper { "X" } else { "x" }
    } else if k == 9 {
        if upper { "IX" } else { "ix" }
    } else if k == 10 {
        if upper { "V" } else { "v" }
    } else if k == 11 {
        if upper { "IV" } else { "iv" }
    } else {
        if upper { "I" } else { "i" }
    };
    assert(r@ =~= cased(roman_numeral(k as int), upper));
    r
}

proof fn lemma_cased_concat(a: Seq<char>, b: Seq<char>, upper: bool)
    ensures
        cased(a + b, upper) == cased(a, upper) + cased(b, upper),
{
    if upper {
        assert(cased(a + b, upper) =~= cased(a, upper) + cased(b, upper));
    }
}

/// The standard way of writing one decimal digit `d` with the symbols for
/// one, five and ten units of its place: 4 is one before five, 9 is one
/// before ten, and no symbol stands more than three times in a row.
pub open spec fn digit_numeral(d: nat, one: char, five: char, ten: char) -> Seq<char> {
    if d == 1 {
        seq![one]
    } else if d == 2 {
        seq![one, one]
    } else if d == 3 {
        seq![one, one, one]
    } else if d == 4 {
        seq![one, five]
    } else if d == 5 {
        seq![five]
    } else if d == 6 {
        seq![five, one]
    } else if d == 7 {
        seq![five, one, one]
    } else if d == 8 {
        seq![five, one, one, one]
    } else if d == 9 {
        seq![one, ten]
    } else {
        Seq::empty()
    }
}

/// The standard subtractive Roman numeral of `n`, in lower case: one `m`
/// per thousand, then the hundreds, tens and units digits each written
/// with their own symbols.
pub open spec fn standard_roman(n: nat) -> Seq<char> {
    Seq::new(n / 1000, |i: int| 'm')
        + digit_numeral((n / 100) % 10, 'c', 'd', 'm')
        + digit_numeral((n / 10) % 10, 'x', 'l', 'c')
        + digit_numeral(n % 10, 'i', 'v', 'x')
}

/// The place value of the decade of the table that starts at entry `k`.
spec fn decade_unit(k: nat) -> nat {
    if k == 1 {
        100
    } else if k == 5 {
        10
    } else {
        1
    }
}

spec fn decade_one(k: nat) -> char {
    if k == 1 {
        'c'
    } else if k == 5 {
        'x'
    } else {
        'i'
    }
}

spec fn decade_five(k: nat) -> char {
    if k == 1 {
        'd'
    } else if k == 5 {
        'l'
    } else {
        'v'
    }
}

spec fn decade_ten(k: nat) -> char {
    if k == 1 {
        'm'
    } else if k == 5 {
        'c'
    } else {
        'x'
    }
}

proof fn lemma_decade_table(k: nat)
    requires
        k == 1 || k == 5 || k == 9,
    ensures
        roman_value(k as int) == 9 * decade_unit(k),
        roman_value((k + 1) as int) == 5 * decade_unit(k),
        roman_value((k + 2) as int) == 4 * decade_unit(k),
        roman_value((k + 3) as int) == decade_unit(k),
        roman_numeral(k as int) == seq![decade_one(k), decade_ten(k)],
        roman_numeral((k + 1) as int) == seq![decade_five(k)],
        roman_numeral((k + 2) as int) == seq![decade_one(k), decade_five(k)],
        roman_numeral((k + 3) as int) == seq![decade_one(k)],
{
    reveal_strlit("cm");
    reveal_strlit("d");
    reveal_strlit("cd");
    reveal_strlit("c");
    reveal_strlit("xc");
    reveal_strlit("l");
    reveal_strlit("xl");
    reveal_strlit("x");
    reveal_strlit("ix");
    reveal_strlit("v");
    reveal_strlit("iv");
    reveal_strlit("i");
    assert(roman_numeral(k as int) =~= seq![decade_one(k), decade_ten(k)]);
    assert(roman_numeral((k + 1) as int) =~= seq![decade_five(k)]);
    assert(roman_numeral((k + 2) as int) =~= seq![decade_one(k), decade_five(k)]);
    assert(roman_numeral((k + 3) as int) =~= seq![decade_one(k)]);
}

/// Below four units, the entry for one unit is repeated.
#[verifier::spinoff_prover]
proof fn lemma_decade_ones(n: nat, k: nat)
    requires
        k == 1 || k == 5 || k == 9,
        n < 4 * decade_unit(k),
    ensures
        roman_from(n, k + 3) == Seq::new(n / decade_unit(k), |i: int| decade_one(k))
            + roman_from(n % decade_unit(k), k + 4),
    decreases n,
{
    lemma_decade_table(k);
    let u = decade_unit(k);
    if n >= u {
        lemma_decade_ones((n - u) as nat, k);
        vstd::arithmetic::div_mod::lemma_div_minus_one(n as int, u as int);
        vstd::arithmetic::div_mod::lemma_mod_sub_multiples_vanish(n as int, u as int);
        assert((n - u) as nat / u == n / u - 1);
        assert((n - u) as nat % u == n % u);
        assert(Seq::new(n / u, |i: int| decade_one(k)) =~= seq![decade_one(k)] + Seq::new(
            (n - u) as nat / u,
            |i: int| decade_one(k),
        ));
    } else {
        assert(n / u == 0);
        assert(n % u == n);
        assert(Seq::new(n / u, |i: int| decade_one(k)) + roman_from(n, k + 4) =~= roman_from(n, k + 4));
    }
}

/// Within one decade of the table, a value below ten units is written as
/// its leading digit followed by what the next decade makes of the rest.
#[verifier::spinoff_prover]
proof fn lemma_decade(n: nat, k: nat)
    requires
        k == 1 || k == 5 || k == 9,
        n < 10 * decade_unit(k),
    ensures
        roman_from(n, k) == digit_numeral(
            n / decade_unit(k),
            decade_one(k),
            decade_five(k),
            decade_ten(k),
        ) + roman_from(n % decade_unit(k), k + 4),
{
    lemma_decade_table(k);
    let u = decade_unit(k);
    let d = n / u;
    let one = decade_one(k);
    let five = decade_five(k);
    let ten = decade_ten(k);
    let rest = roman_from(n % u, k + 4);
    if d == 9 {
        let m = (n - 9 * u) as nat;
        assert(roman_from(n, k) == seq![one, ten] + roman_from(m, k));
        assert(roman_from(m, k) == roman_from(m, k + 1));
        assert(roman_from(m, k + 1) == roman_from(m, k + 2));
        assert(roman_from(m, k + 2) == roman_from(m, k + 3));
        lemma_decade_ones(m, k);
        assert(m / u == 0 && m % u == n % u);
        assert(roman_from(n, k) =~= digit_numeral(d, one, five, ten) + rest);
    } else if d >= 5 {
        let m = (n - 5 * u) as nat;
        assert(roman_from(n, k) == roman_from(n, k + 1));
        assert(roman_from(n, k + 1) == seq![five] + roman_from(m, k + 1));
        assert(roman_from(m, k + 1) == roman_from(m, k + 2));
        assert(roman_from(m, k + 2) == roman_from(m, k + 3));
        lemma_decade_ones(m, k);
        assert(m / u == d - 5 && m % u == n % u);
        assert(roman_from(n, k) =~= digit_numeral(d, one, five, ten) + rest);
    } else if d == 4 {
        let m = (n - 4 * u) as nat;
        assert(roman_from(n, k) == roman_from(n, k + 1));
        assert(roman_from(n, k + 1) == roman_from(n, k + 2));
        assert(roman_from(n, k + 2) == seq![one, five] + roman_from(m, k + 2));
        assert(roman_from(m, k + 2) == roman_from(m, k + 3));
        lemma_decade_ones(m, k);
        assert(m / u == 0 && m % u == n % u);
        assert(roman_from(n, k) =~= digit_numeral(d, one, five, ten) + rest);
    } else {
        assert(roman_from(n, k) == roman_from(n, k + 1));
        assert(roman_from(n, k + 1) == roman_from(n, k + 2));
        assert(roman_from(n, k + 2) == roman_from(n, k + 3));
        lemma_decade_ones(n, k);
        assert(roman_from(n, k) =~= digit_numeral(d, one, five, ten) + rest);
    }
}

/// Each full thousand is one `m`; the rest is written from the next entry on.
proof fn lemma_thousands(n: nat)
    ensures
        roman_from(n, 0) == Seq::new(n / 1000, |i: int| 'm') + roman_from(n % 1000, 1),
    decreases n,
{
    reveal_strlit("m");
    if n >= 1000 {
        lemma_thousands((n - 1000) as nat);
        assert(((n - 1000) as nat) / 1000 == n / 1000 - 1);
        assert(((n - 1000) as nat) % 1000 == n % 1000);
        assert(roman_numeral(0) =~= seq!['m']);
        assert(Seq::new(n / 1000, |i: int| 'm') =~= seq!['m'] + Seq::new(
            ((n - 1000) as nat) / 1000,
            |i: int| 'm',
        ));
    } else {
        assert(Seq::new(n / 1000, |i: int| 'm') + roman_from(n % 1000, 1) =~= roman_from(n, 1));
    }
}

/// The Roman numerals are the standard subtractive ones: every positive
/// value is written as its thousands in `m`, then its hundreds, tens and
/// units digits each in the usual form (4 as `iv`, 40 as `xl`, 400 as
/// `cd`, 9 as `ix` and so on), in upper case where asked.
pub proof fn law_roman_standard_form(n: int, upper: bool)
    requires
        n > 0,
    ensures
        roman_text(n, upper) == cased(standard_roman(n as nat), upper),
{
    let v = n as nat;
    lemma_thousands(v);
    let h = v % 1000;
    lemma_decade(h, 1);
    assert(h / 100 == (v / 100) % 10);
    assert(h % 100 == v % 100);
    let t = v % 100;
    lemma_decade(t, 5);
    assert(t / 10 == (v / 10) % 10);
    assert(t % 10 == v % 10);
    let o = v % 10;
    lemma_decade(o, 9);
    assert(o / 1 == o && o % 1 == 0);
    assert(roman_from(0, 13) =~= Seq::<char>::empty());
    assert(roman_from(v, 0) =~= standard_roman(v));
}

/// The number that letters `a`..`z` spell in bijective base 26, the way
/// columns are counted (`a` is 1, `z` 26, `aa` 27).
pub open spec fn alpha_value(s: Seq<char>) -> int
    decreases s.len(),
{
    if s.len() == 0 {
        0
    } else {
        alpha_value(s.drop_last()) * 26 + ((s.last() as int) - 96)
    }
}

proof fn lemma_alpha_value(m: nat)
    ensures
        alpha_value(alpha(m, false)) == m + 1,
        forall|k: int| 0 <= k < alpha(m, false).len() ==> 'a' <= #[trigger] alpha(m, false)[k] <= 'z',
        alpha(m, true) == cased(alpha(m, false), true),
    decreases m,
{
    let d = m % 26;
    assert(letter(d, false) as int == d + 97);
    assert(upper_char(letter(d, false)) == letter(d, true));
    if m / 26 == 0 {
        let s = alpha(m, false);
        assert(d == m);
        assert(s =~= seq![letter(d, false)]);
        assert(s.drop_last() =~= Seq::<char>::empty());
        assert(alpha_value(s.drop_last()) == 0);
        assert(s.last() == letter(d, false));
        assert(alpha_value(s) == 0 * 26 + ((s.last() as int) - 96));
        assert(alpha(m, true) =~= cased(s, true));
    } else {
        let p = (m / 26 - 1) as nat;
        lemma_alpha_value(p);
        let s = alpha(m, false);
        assert(s.drop_last() =~= alpha(p, false));
        assert(s.last() == letter(d, false));
        assert(alpha_value(s) == (p + 1) * 26 + d + 1);
        assert(alpha(m, true) =~= cased(s, true));
    }
}

/// Alphabetic labels count in bijective base 26: the label of every
/// positive `n` is made of the letters `a`..`z` and spells `n` (so `z` is
/// 26 and `aa` 27), and the upper-case style is the same label raised to
/// upper case.
pub proof fn law_alpha_labels_count_in_base_26(n: int)
    requires
        n > 0,
    ensures
        alpha_value(alpha_text(n, false)) == n,
        forall|k: int|
            0 <= k < alpha_text(n, false).len() ==> 'a' <= #[trigger] alpha_text(n, false)[k] <= 'z',
        alpha_text(n, true) == cased(alpha_text(n, false), true),
{
    lemma_alpha_value((n - 1) as nat);
}

/// Roman numerals for positive `n`; zero and negative values in decimal.
pub fn int_to_roman(n: i64, uppercase: bool) -> (r: String)
    ensures
        r@ == roman_text(n as int, uppercase),
{
    let mut result = String::new();
    if n <= 0 {
        push_dec_i64(&mut result, n);
        return result;
    }
    let mut m: u64 = n as u64;
    let ghost target = roman_from(n as nat, 0);
    proof {
        lemma_cased_concat(Seq::empty(), target, uppercase);
        assert(Seq::<char>::empty() + target =~= target);
        assert(cased(Seq::<char>::empty(), uppercase) =~= Seq::<char>::empty());
    }
    let mut k: usize = 0;
    while k < 13
        invariant
            k <= 13,
            result@ + cased(roman_from(m as nat, k as nat), uppercase) == cased(target, uppercase),
        decreases 13 - k,
    {
        let value = roman_table_value(k);
        while m >= value
            invariant
                k < 13,
                value == roman_value(k as int),
                result@ + cased(roman_from(m as nat, k as nat), uppercase) == cased(target, uppercase),
            decreases m,
        {
            let numeral = roman_table_numeral(k, uppercase);
            proof {
                lemma_cased_concat(
                    roman_numeral(k as int),
                    roman_from((m - value) as nat, k as nat),
                    uppercase,
                );
                assert(result@ + numeral@ + cased(roman_from((m - value) as nat, k as nat), uppercase)
                    =~= result@ + cased(roman_from(m as nat, k as nat), uppercase));
            }
            push_str(&mut result, numeral);
            m = m - value;
        }
        k = k + 1;
    }
    proof {
        assert(cased(Seq::<char>::empty(), uppercase) =~= Seq::<char>::empty());
        assert(result@ =~= result@ + cased(roman_from(m as nat, 13), uppercase));
    }
    result
}

fn push_alpha(s: &mut String, m: u64, upper: bool)
    ensures
        final(s)@ == old(s)@ + alpha(m as nat, upper),
    decreases m,
{
    if m / 26 > 0 {
        push_alpha(s, m / 26 - 1, upper);
    }
    let d = (m % 26) as u8;
    let c = if upper { (65 + d) as char } else { (97 + d) as char };
    push_char(s, c);
    if m / 26 > 0 {
        assert(old(s)@ + alpha(m as nat, upper) =~= (old(s)@ + alpha((m / 26 - 1) as nat, upper)).push(
            letter((m % 26) as nat, upper),
        ));
    } else {
        assert(old(s)@ + alpha(m as nat, upper) =~= old(s)@.push(letter((m % 26) as nat, upper)));
    }
}

/// Letters for positive `n` (1 is `a`, 26 is `z`, 27 is `aa`); zero and
/// negative values in decimal.
pub fn int_to_alpha(n: i64, uppercase: bool) -> (r: String)
    ensures
        r@ == alpha_text(n as int, uppercase),
{
    let mut result = String::new();
    if n <= 0 {
        push_dec_i64(&mut result, n);
        return result;
    }
    push_alpha(&mut result, (n - 1) as u64, uppercase);
    result
}

/// The number part of a label in numbering style `style`: `D` decimal, `r`
/// and `R` Roman, `a` and `A` letters; any other style has none.
pub open spec fn number_text(style: Seq<char>, value: int) -> Seq<char> {
    if style == seq!['D'] {
        dec_int(value)
    } else if style == seq!['r'] {
        roman_text(value, false)
    } else if style == seq!['R'] {
        roman_text(value, true)
    } else if style == seq!['a'] {
        alpha_text(value, false)
    } else if style == seq!['A'] {
        alpha_text(value, true)
    } else {
        Seq::empty()
    }
}

/// The label of a page: the prefix, then the number in the range's style.
pub open spec fn label_text(style: Seq<char>, prefix: Seq<char>, value: int) -> Seq<char> {
    prefix + number_text(style, value)
}

/// The numbering styles of a label range: `r` writes the standard Roman
/// numeral in lower case and `R` the same in upper case, `a` counts in
/// letters (bijective base 26) and `A` the same in upper case, each after
/// the range's prefix.
pub proof fn law_label_styles(prefix: Seq<char>, v: int)
    requires
        v > 0,
    ensures
        label_text(seq!['r'], prefix, v) == prefix + standard_roman(v as nat),
        label_text(seq!['R'], prefix, v) == prefix + cased(standard_roman(v as nat), true),
        alpha_value(number_text(seq!['a'], v)) == v,
        number_text(seq!['A'], v) == cased(number_text(seq!['a'], v), true),
{
    law_roman_standard_form(v, false);
    law_roman_standard_form(v, true);
    law_alpha_labels_count_in_base_26(v);
    assert(seq!['r'] != seq!['D']) by {
        assert(seq!['r'][0] != seq!['D'][0]);
    }
    assert(seq!['R'] != seq!['D'] && seq!['R'] != seq!['r']) by {
        assert(seq!['R'][0] != seq!['D'][0] && seq!['R'][0] != seq!['r'][0]);
    }
    assert(seq!['a'] != seq!['D'] && seq!['a'] != seq!['r'] && seq!['a'] != seq!['R']) by {
        assert(seq!['a'][0] != seq!['D'][0] && seq!['a'][0] != seq!['r'][0] && seq!['a'][0]
            != seq!['R'][0]);
    }
    assert(seq!['A'] != seq!['D'] && seq!['A'] != seq!['r'] && seq!['A'] != seq!['R'] && seq!['A']
        != seq!['a']) by {
        assert(seq!['A'][0] != seq!['D'][0] && seq!['A'][0] != seq!['r'][0] && seq!['A'][0]
            != seq!['R'][0] && seq!['A'][0] != seq!['a'][0]);
    }
    assert(cased(standard_roman(v as nat), false) == standard_roman(v as nat));
}

pub fn format_page_label(style: &str, prefix: &str, value: i64) -> (r: String)
    ensures
        r@ == label_text(style@, prefix@, value as int),
{
    let chars = str_chars(style);
    let mut r = String::new();
    push_str(&mut r, prefix);
    let code = if chars.len() == 1 { chars[0] } else { ' ' };
    if code == 'D' {
        push_dec_i64(&mut r, value);
    } else if code == 'r' || code == 'R' {
        let part = int_to_roman(value, code == 'R');
        push_str(&mut r, part.as_str());
    } else if code == 'a' || code == 'A' {
        let part = int_to_alpha(value, code == 'A');
        push_str(&mut r, part.as_str());
    }
    proof {
        reveal_strlit("");
        if chars@.len() == 1 {
            assert(style@ =~= seq![code]);
        } else {
            assert(style@ != seq!['D']);
            assert(style@ != seq!['r']);
            assert(style@ != seq!['R']);
            assert(style@ != seq!['a']);
            assert(style@ != seq!['A']);
        }
        assert(r@ =~= label_text(style@, prefix@, value as int));
    }
    r
}

/// The entries of a page label dictionary that the labels use; `None` where
/// a key is absent (or, for `/St`, not an integer).
#[derive(Debug)]
pub struct LabelDict {
    /// `/S`, the numbering style's name.
    pub style: Option<String>,
    /// `/P`, the label prefix.
    pub prefix: Option<String>,
    /// `/St`, the value of the range's first page.
    pub start: Option<i64>,
}

/// A range of the `/PageLabels` number tree, its defaults filled in.
#[derive(Debug)]
pub struct LabelRange {
    /// The first physical page (zero-based) of the range.
    pub key: i64,
    pub style: String,
    pub prefix: String,
    pub start: i64,
}

/// The label one physical page receives.
#[derive(Debug)]
pub struct PageLabelEntry {
    /// One-based.
    pub physical_page: u32,
    pub label: String,
    pub style: String,
    pub prefix: String,
    pub start: i64,
}

fn copy_str(t: &str) -> (r: String)
    ensures
        r@ == t@,
{
    let mut r = String::new();
    push_str(&mut r, t);
    r
}

/// The range keyed `key` whose value in the tree is `dict` (`None` when the
/// value is not a dictionary, which reads as plain decimal from 1). A missing
/// `/S` is `-` (no number), a missing `/P` empty, a missing `/St` 1.
pub fn parse_label_range(key: i64, dict: Option<&LabelDict>) -> (r: LabelRange)
    ensures
        r.key == key,
        match dict {
            None => r.style@ == "D"@ && r.prefix@ == ""@ && r.start == 1,
            Some(d) => {
                &&& r.style@ == (match d.style {
                    Some(s) => s@,
                    None => "-"@,
                })
                &&& r.prefix@ == (match d.prefix {
                    Some(p) => p@,
                    None => ""@,
                })
                &&& r.start == (match d.start {
                    Some(st) => st,
                    None => 1,
                })
            },
        },
{
    match dict {
        None => LabelRange { key, style: copy_str("D"), prefix: copy_str(""), start: 1 },
        Some(d) => {
            let style = match &d.style {
                Some(s) => s.clone(),
                None => copy_str("-"),
            };
            let prefix = match &d.prefix {
                Some(p) => p.clone(),
                None => copy_str(""),
            };
            let start = match d.start {
                Some(st) => st,
                None => 1,
            };
            LabelRange { key, style, prefix, start }
        },
    }
}

/// A range keyed `key` applies to the zero-based page `phys` when the key,
/// read as an unsigned 32-bit number, does not exceed it.
pub open spec fn applies(key: i64, phys: u32) -> bool {
    (key as u32) <= phys
}

/// Range `j` governs page `phys`: it applies, and every other range that
/// applies has a smaller key, or the same key and comes earlier.
pub open spec fn governs(ranges: Seq<LabelRange>, j: int, phys: u32) -> bool {
    &&& 0 <= j < ranges.len()
    &&& applies(ranges[j].key, phys)
    &&& forall|i: int|
        0 <= i < ranges.len() && i != j && #[trigger] applies(ranges[i].key, phys) ==> (
        ranges[i].key < ranges[j].key || (ranges[i].key == ranges[j].key && i < j))
}

/// The value a page shows: the range's start plus the page's distance from
/// the range's first page, in 64-bit two's complement.
pub open spec fn page_value(start: i64, phys: u32, key: i64) -> i64 {
    (start + phys - key) as i64
}

/// `e` labels page `phys` in the given range.
pub open spec fn entry_for(
    e: PageLabelEntry,
    phys: u32,
    style: Seq<char>,
    prefix: Seq<char>,
    start: i64,
    key: i64,
) -> bool {
    &&& e.physical_page == phys + 1
    &&& e.style@ == style
    &&& e.prefix@ == prefix
    &&& e.start == start
    &&& e.label@ == label_text(style, prefix, page_value(start, phys, key) as int)
}

/// `e` labels page `phys` under the range that governs it, or as plain
/// decimal from 1 when none applies.
pub open spec fn labels_page(ranges: Seq<LabelRange>, phys: u32, e: PageLabelEntry) -> bool {
    if exists|j: int| governs(ranges, j, phys) {
        let j = choose|j: int| governs(ranges, j, phys);
        entry_for(e, phys, ranges[j].style@, ranges[j].prefix@, ranges[j].start, ranges[j].key)
    } else {
        entry_for(e, phys, "D"@, ""@, 1, 0)
    }
}

proof fn lemma_governs_unique(ranges: Seq<LabelRange>, j: int, k: int, phys: u32)
    requires
        governs(ranges, j, phys),
        governs(ranges, k, phys),
    ensures
        j == k,
{
    if j != k {
        assert(applies(ranges[k].key, phys));
        assert(applies(ranges[j].key, phys));
    }
}

/// The range that governs page `phys`, if any applies.
fn governing_range(ranges: &Vec<LabelRange>, phys: u32) -> (r: Option<usize>)
    ensures
        match r {
            Some(j) => governs(ranges@, j as int, phys),
            None => forall|i: int| 0 <= i < ranges@.len() ==> !applies(#[trigger] ranges@[i].key, phys),
        },
{
    let mut best: Option<usize> = None;
    let mut i: usize = 0;
    while i < ranges.len()
        invariant
            i <= ranges@.len(),
            match best {
                Some(b) => {
                    &&& b < i
                    &&& applies(ranges@[b as int].key, phys)
                    &&& forall|k: int|
                        0 <= k < i && k != b && #[trigger] applies(ranges@[k].key, phys) ==> (
                        ranges@[k].key < ranges@[b as int].key || (ranges@[k].key
                            == ranges@[b as int].key && k < b))
                },
                None => forall|k: int| 0 <= k < i ==> !applies(#[trigger] ranges@[k].key, phys),
            },
        decreases ranges.len() - i,
    {
        let key = ranges[i].key;
        if (key as u32) <= phys {
            match best {
                None => {
                    best = Some(i);
                },
                Some(b) => {
                    if key >= ranges[b].key {
                        best = Some(i);
                    }
                },
            }
        }
        i = i + 1;
    }
    best
}

/// The label of every physical page, given the ranges of the document's
/// `/PageLabels` tree (`None` when the catalog has no such tree).
pub fn collect_page_labels(ranges: Option<&Vec<LabelRange>>, page_count: u32) -> (r: Vec<
    PageLabelEntry,
>)
    ensures
        match ranges {
            None => r@.len() == 0,
            Some(rs) => {
                &&& r@.len() == page_count
                &&& forall|p: int|
                    0 <= p < page_count ==> labels_page(rs@, p as u32, #[trigger] r@[p])
            },
        },
{
    let mut entries: Vec<PageLabelEntry> = Vec::new();
    let rs = match ranges {
        None => {
            return entries;
        },
        Some(rs) => rs,
    };
    let mut phys: u32 = 0;
    while phys < page_count
        invariant
            phys <= page_count,
            entries@.len() == phys,
            forall|p: int| 0 <= p < phys ==> labels_page(rs@, p as u32, #[trigger] entries@[p]),
        decreases page_count - phys,
    {
        let entry = match governing_range(rs, phys) {
            Some(j) => {
                let range = &rs[j];
                let v: i128 = (range.start as i128) + (phys as i128) - (range.key as i128);
                let value = v as i64;
                let label = format_page_label(range.style.as_str(), range.prefix.as_str(), value);
                let e = PageLabelEntry {
                    physical_page: phys + 1,
                    label,
                    style: range.style.clone(),
                    prefix: range.prefix.clone(),
                    start: range.start,
                };
                proof {
                    assert(governs(rs@, j as int, phys));
                    let c = choose|k: int| governs(rs@, k, phys);
                    lemma_governs_unique(rs@, j as int, c, phys);
                }
                e
            },
            None => {
                let label = format_page_label("D", "", (phys as i64) + 1);
                proof {
                    assert(!exists|k: int| governs(rs@, k, phys));
                }
                PageLabelEntry {
                    physical_page: phys + 1,
                    label,
                    style: copy_str("D"),
                    prefix: copy_str(""),
                    start: 1,
                }
            },
        };
        entries.push(entry);
        phys = phys + 1;
    }
    entries
}

/// The lines of the text report of page labels.
pub open spec fn label_report(entries: Seq<PageLabelEntry>) -> Seq<Seq<char>> {
    if entries.len() == 0 {
        seq!["No page labels defined."@]
    } else {
        seq![dec(entries.len()) + " pages with labels"@, Seq::<char>::empty(), "  Physical  Label"@]
            + entries.map_values(
            |e: PageLabelEntry| "  "@ + pad_left(dec(e.physical_page as nat), 8) + "  "@ + e.label@,
        )
    }
}

/// The text report of page labels, line by line.
pub fn page_labels_report(entries: &Vec<PageLabelEntry>) -> (r: Vec<String>)
    ensures
        views(r@) == label_report(entries@),
{
    let mut lines: Vec<String> = Vec::new();
    assert(views(lines@) =~= Seq::<Seq<char>>::empty());
    if entries.len() == 0 {
        push_line(&mut lines, copy_str("No page labels defined."));
        assert(views(lines@) =~= label_report(entries@));
        return lines;
    }
    let mut head = String::new();
    push_dec(&mut head, entries.len() as u64);
    push_str(&mut head, " pages with labels");
    push_line(&mut lines, head);
    let empty = String::new();
    assert(empty@ =~= Seq::<char>::empty());
    push_line(&mut lines, empty);
    push_line(&mut lines, copy_str("  Physical  Label"));
    let ghost top = views(lines@);
    let mut i: usize = 0;
    while i < entries.len()
        invariant
            i <= entries@.len(),
            top.len() == 3,
            views(lines@) == top + entries@.take(i as int).map_values(
                |e: PageLabelEntry| "  "@ + pad_left(dec(e.physical_page as nat), 8) + "  "@ + e.label@,
            ),
        decreases entries.len() - i,
    {
        let e = &entries[i];
        let mut line = String::new();
        push_str(&mut line, "  ");
        push_padded_dec(&mut line, e.physical_page as u64, 8);
        push_str(&mut line, "  ");
        push_str(&mut line, e.label.as_str());
        push_line(&mut lines, line);
        assert(entries@.take(i + 1) =~= entries@.take(i as int).push(entries@[i as int]));
        assert(views(lines@) =~= top + entries@.take(i + 1).map_values(
            |e: PageLabelEntry| "  "@ + pad_left(dec(e.physical_page as nat), 8) + "  "@ + e.label@,
        ));
        i = i + 1;
    }
    assert(entries@.take(entries@.len() as int) =~= entries@);
    assert(views(lines@) =~= label_report(entries@));
    lines
}

} // verus!
