//! Object search: the condition language (`Type=Font,key=MediaBox,...`)
//! and the test of an object against a list of conditions.
use vstd::prelude::*;
use vstd::utf8::{decode_utf8, encode_utf8, valid_utf8};
use std::borrow::Cow;
use crate::page_info::{lowercase, to_lower};
use crate::stream::{decode_stream, run_filters, spec_filter_names, utf8_lossy, lossy_string, PdfStream};
use crate::textbuf::{find_char, find_first, push_chars, push_str, split_pieces, str_chars, trim, trim_bounds};
use crate::types::lemma_split_step;

verus! {

#[verifier::external_type_specification]
#[verifier::external_body]
pub struct ExRegex(regex::Regex);

/// What `regex::Regex::new` makes of a pattern: `None` when it compiles,
/// else the text of its error. It depends on the pattern alone.
pub uninterp spec fn regex_compile_error(pattern: Seq<char>) -> Option<Seq<char>>;

/// Whether the regular expression `pattern` matches anywhere in `text`, as
/// `regex::Regex::is_match` decides.
pub uninterp spec fn regex_is_match(pattern: Seq<char>, text: Seq<char>) -> bool;

/// `regex::Regex::new`: compiles a pattern; its error is turned into its
/// text. Whether it compiles, and the error text, are named by
/// `regex_compile_error`; nothing more is claimed of them.
#[verifier::external_body]
fn regex_new(pattern: &str) -> (r: Result<regex::Regex, String>)
    ensures
        match r {
            Ok(_) => regex_compile_error(pattern@) is None,
            Err(e) => regex_compile_error(pattern@) == Some(e@),
        },
{
    match regex::Regex::new(pattern) {
        Ok(re) => Ok(re),
        Err(e) => Err(e.to_string()),
    }
}

/// A compiled regular expression with the pattern it was compiled from.
/// Only `CompiledRegex::compile` builds one, so `re` is always the
/// compilation of `source`.
#[derive(Debug)]
pub struct CompiledRegex {
    source: String,
    re: regex::Regex,
}

impl CompiledRegex {
    /// The pattern the expression was compiled from.
    pub closed spec fn pattern(&self) -> Seq<char> {
        self.source@
    }

    /// Compiles a pattern, or gives the compiler's error text.
    pub fn compile(pattern: &str) -> (r: Result<CompiledRegex, String>)
        ensures
            match r {
                Ok(c) => c.pattern() == pattern@ && regex_compile_error(pattern@) is None,
                Err(e) => regex_compile_error(pattern@) == Some(e@),
            },
    {
        match regex_new(pattern) {
            Ok(re) => {
                let mut source = String::new();
                push_str(&mut source, pattern);
                Ok(CompiledRegex { source, re })
            },
            Err(e) => Err(e),
        }
    }

    /// The pattern the expression was compiled from.
    pub fn source(&self) -> (r: &str)
        ensures
            r@ == self.pattern(),
    {
        self.source.as_str()
    }
}

/// `regex::Regex::is_match` on the compiled pattern; its answer is named by
/// `regex_is_match` over the pattern's text (the expression is always the
/// compilation of that text, see `CompiledRegex`).
#[verifier::external_body]
fn regex_matches(c: &CompiledRegex, text: &str) -> (r: bool)
    ensures
        r == regex_is_match(c.pattern(), text@),
{
    c.re.is_match(text)
}

/// `std::str::from_utf8`: the text of `b` when it is valid UTF-8.
#[verifier::external_body]
fn utf8_text(b: &[u8]) -> (r: Option<&str>)
    ensures
        match r {
            Some(s) => valid_utf8(b@) && s@ == decode_utf8(b@),
            None => !valid_utf8(b@),
        },
{
    std::str::from_utf8(b).ok()
}

/// A character in ASCII lower case.
pub open spec fn lower_char(c: char) -> char {
    if 'A' <= c && c <= 'Z' {
        ((c as u32) + 32) as char
    } else {
        c
    }
}

/// A byte in ASCII lower case.
pub open spec fn lower_byte(b: u8) -> u8 {
    if 65 <= b && b <= 90 {
        (b + 32) as u8
    } else {
        b
    }
}

/// Equal but for ASCII case.
pub open spec fn eq_ignore_case(a: Seq<char>, b: Seq<char>) -> bool {
    a.len() == b.len() && forall|i: int| 0 <= i < a.len() ==> lower_char(#[trigger] a[i]) == lower_char(b[i])
}

/// Equal bytes but for ASCII case.
pub open spec fn bytes_eq_ignore_case(a: Seq<u8>, b: Seq<u8>) -> bool {
    a.len() == b.len() && forall|i: int| 0 <= i < a.len() ==> lower_byte(#[trigger] a[i]) == lower_byte(b[i])
}

/// The parsed form of a search condition.
pub enum SearchSpec {
    KeyEquals(Seq<u8>, Seq<u8>),
    HasKey(Seq<u8>),
    ValueContains(Seq<char>),
    StreamContains(Seq<char>),
    RegexMatch(Seq<char>),
}

/// A condition on an object's dictionary or stream.
#[derive(Debug)]
pub enum SearchCondition {
    /// The key's value is a name or string equal to `value` but for ASCII
    /// case.
    KeyEquals { key: Vec<u8>, value: Vec<u8> },
    /// The dictionary has the key.
    HasKey { key: Vec<u8> },
    /// Some name or string value contains the text, ignoring case.
    ValueContains { text: String },
    /// The decoded stream contains the text, ignoring ASCII case.
    StreamContains { text: String },
    /// The pattern matches a key, a name or string value, or the decoded
    /// stream.
    RegexMatch { pattern: CompiledRegex },
}

pub open spec fn cond_spec(c: SearchCondition) -> SearchSpec {
    match c {
        SearchCondition::KeyEquals { key, value } => SearchSpec::KeyEquals(key@, value@),
        SearchCondition::HasKey { key } => SearchSpec::HasKey(key@),
        SearchCondition::ValueContains { text } => SearchSpec::ValueContains(text@),
        SearchCondition::StreamContains { text } => SearchSpec::StreamContains(text@),
        SearchCondition::RegexMatch { pattern } => SearchSpec::RegexMatch(pattern.pattern()),
    }
}

pub open spec fn cond_specs(cs: Seq<SearchCondition>) -> Seq<SearchSpec> {
    cs.map_values(|c: SearchCondition| cond_spec(c))
}

/// One condition, from a trimmed, non-empty part of the expression: `K=V`,
/// or one of the keywords `key`, `value`, `stream` or `regex` (in any case)
/// before the `=`.
pub open spec fn condition_of(part: Seq<char>) -> Result<SearchSpec, Seq<char>> {
    match find_first(part, '=') {
        None => Err("Invalid condition '"@ + part + "'. Expected Key=Value, key=Key, or value=Text"@),
        Some(i) => {
            let left = trim(part.take(i));
            let right = trim(part.skip(i + 1));
            if right.len() == 0 {
                Err("Empty value in '"@ + part + "'"@)
            } else if eq_ignore_case(left, "key"@) {
                Ok(SearchSpec::HasKey(encode_utf8(right)))
            } else if eq_ignore_case(left, "value"@) {
                Ok(SearchSpec::ValueContains(right))
            } else if eq_ignore_case(left, "stream"@) {
                Ok(SearchSpec::StreamContains(right))
            } else if eq_ignore_case(left, "regex"@) {
                match regex_compile_error(right) {
                    None => Ok(SearchSpec::RegexMatch(right)),
                    Some(e) => Err("Invalid regex '"@ + right + "': "@ + e),
                }
            } else {
                Ok(SearchSpec::KeyEquals(encode_utf8(left), encode_utf8(right)))
            }
        },
    }
}

/// The conditions of the comma-separated parts, blank parts skipped; the
/// first bad part decides the error.
pub open spec fn conditions_of(parts: Seq<Seq<char>>) -> Result<Seq<SearchSpec>, Seq<char>>
    decreases parts.len(),
{
    if parts.len() == 0 {
        Ok(Seq::empty())
    } else {
        let p = trim(parts[0]);
        let rest = conditions_of(parts.drop_first());
        if p.len() == 0 {
            rest
        } else {
            match condition_of(p) {
                Err(e) => Err(e),
                Ok(c) => match rest {
                    Err(e) => Err(e),
                    Ok(cs) => Ok(seq![c] + cs),
                },
            }
        }
    }
}

/// The parse of a whole expression: at least one condition is needed.
pub open spec fn search_expr_spec(expr: Seq<char>) -> Result<Seq<SearchSpec>, Seq<char>> {
    match conditions_of(split_pieces(expr, ',')) {
        Err(e) => Err(e),
        Ok(cs) => if cs.len() == 0 {
            Err("Empty search expression"@)
        } else {
            Ok(cs)
        },
    }
}

pub open spec fn prepend(a: Seq<SearchSpec>, r: Result<Seq<SearchSpec>, Seq<char>>) -> Result<Seq<SearchSpec>, Seq<char>> {
    match r {
        Err(e) => Err(e),
        Ok(cs) => Ok(a + cs),
    }
}

fn chars_eq_ignore_case(v: &Vec<char>, lo: usize, hi: usize, word: &str) -> (r: bool)
    requires
        lo <= hi <= v@.len(),
    ensures
        r == eq_ignore_case(v@.subrange(lo as int, hi as int), word@),
{
    let w = str_chars(word);
    if hi - lo != w.len() {
        return false;
    }
    let mut i: usize = 0;
    while i < w.len()
        invariant
            lo <= hi <= v@.len(),
            hi - lo == w@.len(),
            w@ == word@,
            i <= w@.len(),
            forall|j: int| 0 <= j < i ==> lower_char(#[trigger] v@[lo + j]) == lower_char(w@[j]),
        decreases w.len() - i,
    {
        let a = v[lo + i];
        let b = w[i];
        let la = if 'A' <= a && a <= 'Z' { ((a as u32) + 32) as u8 as char } else { a };
        let lb = if 'A' <= b && b <= 'Z' { ((b as u32) + 32) as u8 as char } else { b };
        if la != lb {
            assert(v@.subrange(lo as int, hi as int)[i as int] == a);
            return false;
        }
        i = i + 1;
    }
    let ghost s = v@.subrange(lo as int, hi as int);
    assert forall|j: int| 0 <= j < s.len() implies lower_char(#[trigger] s[j]) == lower_char(word@[j]) by {
        assert(s[j] == v@[lo + j]);
    }
    true
}

fn utf8_bytes(v: &Vec<char>, lo: usize, hi: usize) -> (r: Vec<u8>)
    requires
        lo <= hi <= v@.len(),
    ensures
        r@ == encode_utf8(v@.subrange(lo as int, hi as int)),
{
    let mut s = String::new();
    push_chars(&mut s, v, lo, hi);
    vstd::slice::slice_to_vec(s.as_str().as_bytes())
}

fn range_string(v: &Vec<char>, lo: usize, hi: usize) -> (r: String)
    requires
        lo <= hi <= v@.len(),
    ensures
        r@ == v@.subrange(lo as int, hi as int),
{
    let mut s = String::new();
    push_chars(&mut s, v, lo, hi);
    s
}

/// The condition of the trimmed, non-empty part `v[lo..hi]`.
fn condition_from(v: &Vec<char>, lo: usize, hi: usize) -> (r: Result<SearchCondition, String>)
    requires
        lo <= hi <= v@.len(),
    ensures
        match r {
            Ok(c) => condition_of(v@.subrange(lo as int, hi as int)) == Ok::<SearchSpec, Seq<char>>(cond_spec(c)),
            Err(e) => condition_of(v@.subrange(lo as int, hi as int)) == Err::<SearchSpec, Seq<char>>(e@),
        },
{
    let ghost part = v@.subrange(lo as int, hi as int);
    match find_char(v, lo, hi, '=') {
        None => {
            let mut e = String::new();
            push_str(&mut e, "Invalid condition '");
            push_chars(&mut e, v, lo, hi);
            push_str(&mut e, "'. Expected Key=Value, key=Key, or value=Text");
            Err(e)
        },
        Some(eq) => {
            let (l0, l1) = trim_bounds(v, lo, eq);
            let (r0, r1) = trim_bounds(v, eq + 1, hi);
            proof {
                let i = eq - lo;
                assert(part.take(i) =~= v@.subrange(lo as int, eq as int));
                assert(part.skip(i + 1) =~= v@.subrange(eq + 1, hi as int));
            }
            if r0 == r1 {
                let mut e = String::new();
                push_str(&mut e, "Empty value in '");
                push_chars(&mut e, v, lo, hi);
                push_str(&mut e, "'");
                return Err(e);
            }
            if chars_eq_ignore_case(v, l0, l1, "key") {
                Ok(SearchCondition::HasKey { key: utf8_bytes(v, r0, r1) })
            } else if chars_eq_ignore_case(v, l0, l1, "value") {
                Ok(SearchCondition::ValueContains { text: range_string(v, r0, r1) })
            } else if chars_eq_ignore_case(v, l0, l1, "stream") {
                Ok(SearchCondition::StreamContains { text: range_string(v, r0, r1) })
            } else if chars_eq_ignore_case(v, l0, l1, "regex") {
                let right = range_string(v, r0, r1);
                match CompiledRegex::compile(right.as_str()) {
                    Ok(c) => Ok(SearchCondition::RegexMatch { pattern: c }),
                    Err(msg) => {
                        let mut e = String::new();
                        push_str(&mut e, "Invalid regex '");
                        push_str(&mut e, right.as_str());
                        push_str(&mut e, "': ");
                        push_str(&mut e, msg.as_str());
                        Err(e)
                    },
                }
            } else {
                Ok(SearchCondition::KeyEquals { key: utf8_bytes(v, l0, l1), value: utf8_bytes(v, r0, r1) })
            }
        },
    }
}

proof fn lemma_conditions_cons(p: Seq<char>, rest: Seq<Seq<char>>)
    ensures
        conditions_of(seq![p] + rest) == (if trim(p).len() == 0 {
            conditions_of(rest)
        } else {
            match condition_of(trim(p)) {
                Err(e) => Err(e),
                Ok(c) => match conditions_of(rest) {
                    Err(e) => Err(e),
                    Ok(cs) => Ok(seq![c] + cs),
                },
            }
        }),
{
    let ps = seq![p] + rest;
    assert(ps[0] == p);
    assert(ps.drop_first() =~= rest);
}

/// Parses a search expression: comma-separated conditions, each `Key=Value`
/// (the key's value equals, ignoring case), `key=Key` (the key is present),
/// `value=Text` (some value contains the text), `stream=Text` (the decoded
/// stream contains it) or `regex=Pattern`.
pub fn parse_search_expr(expr: &str) -> (r: Result<Vec<SearchCondition>, String>)
    ensures
        match r {
            Ok(cs) => search_expr_spec(expr@) == Ok::<Seq<SearchSpec>, Seq<char>>(cond_specs(cs@)),
            Err(e) => search_expr_spec(expr@) == Err::<Seq<SearchSpec>, Seq<char>>(e@),
        },
{
    let v = str_chars(expr);
    let n = v.len();
    let mut acc: Vec<SearchCondition> = Vec::new();
    let mut pos: usize = 0;
    assert(expr@.skip(0) =~= expr@);
    assert(cond_specs(acc@) + Seq::<SearchSpec>::empty() =~= Seq::<SearchSpec>::empty());
    loop
        invariant_except_break
            pos <= n == v@.len(),
            v@ == expr@,
            conditions_of(split_pieces(expr@, ',')) == prepend(
                cond_specs(acc@),
                conditions_of(split_pieces(expr@.skip(pos as int), ',')),
            ),
        ensures
            conditions_of(split_pieces(expr@, ',')) == Ok::<Seq<SearchSpec>, Seq<char>>(cond_specs(acc@)),
        decreases n - pos,
    {
        let ghost s = v@;
        assert(v@.subrange(pos as int, n as int) =~= s.skip(pos as int));
        let found = find_char(&v, pos, n, ',');
        let end = match found {
            Some(i) => i,
            None => n,
        };
        let ghost rest_parts = match found {
            Some(i) => split_pieces(s.skip(i + 1), ','),
            None => Seq::<Seq<char>>::empty(),
        };
        proof {
            match found {
                Some(i) => {
                    lemma_split_step(s, pos as int, i as int);
                },
                None => {
                    assert(split_pieces(s.skip(pos as int), ',') == seq![s.skip(pos as int)]);
                    assert(seq![s.skip(pos as int)] =~= seq![s.skip(pos as int)] + Seq::<Seq<char>>::empty());
                    assert(s.skip(pos as int) =~= v@.subrange(pos as int, n as int));
                },
            }
            lemma_conditions_cons(v@.subrange(pos as int, end as int), rest_parts);
        }
        let (t0, t1) = trim_bounds(&v, pos, end);
        let ghost before = cond_specs(acc@);
        if t0 < t1 {
            match condition_from(&v, t0, t1) {
                Err(e) => {
                    return Err(e);
                },
                Ok(c) => {
                    acc.push(c);
                    proof {
                        assert(cond_specs(acc@) =~= before.push(cond_spec(acc@.last())));
                        let r = conditions_of(rest_parts);
                        if r is Ok {
                            assert(before + (seq![cond_spec(acc@.last())] + r->Ok_0) =~= cond_specs(acc@) + r->Ok_0);
                        }
                    }
                },
            }
        }
        match found {
            Some(i) => {
                pos = i + 1;
            },
            None => {
                proof {
                    assert(conditions_of(Seq::<Seq<char>>::empty()) == Ok::<Seq<SearchSpec>, Seq<char>>(Seq::empty()));
                    assert(cond_specs(acc@) + Seq::<SearchSpec>::empty() =~= cond_specs(acc@));
                }
                break;
            },
        }
    }
    if acc.len() == 0 {
        let mut e = String::new();
        push_str(&mut e, "Empty search expression");
        return Err(e);
    }
    Ok(acc)
}

/// A dictionary value as the search reads it.
#[derive(Debug)]
pub enum EntryValue {
    Name(Vec<u8>),
    Str(Vec<u8>),
    Other,
}

/// An object as the search sees it: its dictionary entries (key, value), and
/// for a stream its filters and content.
#[derive(Debug)]
pub enum SearchObject {
    /// Neither a dictionary nor a stream; it matches nothing.
    Other,
    Dictionary(Vec<(Vec<u8>, EntryValue)>),
    Stream(Vec<(Vec<u8>, EntryValue)>, PdfStream),
}

pub open spec fn entries_of(obj: SearchObject) -> Seq<(Vec<u8>, EntryValue)> {
    match obj {
        SearchObject::Dictionary(es) => es@,
        SearchObject::Stream(es, _) => es@,
        SearchObject::Other => Seq::empty(),
    }
}

/// The decoded content of a stream (through the filters that succeed).
pub open spec fn decoded_of(obj: SearchObject) -> Option<Seq<u8>> {
    match obj {
        SearchObject::Stream(_, s) => Some(run_filters(s.content@, spec_filter_names(s.filter)).0),
        _ => None,
    }
}

/// The value of the first entry with this key.
pub open spec fn dict_get(es: Seq<(Vec<u8>, EntryValue)>, key: Seq<u8>) -> Option<EntryValue>
    decreases es.len(),
{
    if es.len() == 0 {
        None
    } else if es[0].0@ == key {
        Some(es[0].1)
    } else {
        dict_get(es.drop_first(), key)
    }
}

/// The bytes in ASCII lower case.
pub open spec fn lowered(b: Seq<u8>) -> Seq<u8> {
    b.map_values(|x: u8| lower_byte(x))
}

/// The window of `hay` at `i`, as long as `needle`, put in ASCII lower case,
/// equals `needle`.
pub open spec fn window_is(hay: Seq<u8>, i: int, needle: Seq<u8>) -> bool {
    0 <= i && i + needle.len() <= hay.len() && lowered(hay.subrange(i, i + needle.len())) == needle
}

/// `needle` (already in lower case) occurs in `hay` once `hay` is put in
/// ASCII lower case.
pub open spec fn contains_lowered(hay: Seq<u8>, needle: Seq<u8>) -> bool {
    needle.len() > 0 && exists|i: int| #[trigger] window_is(hay, i, needle)
}

/// `needle` occurs in `hay` but for ASCII case.
pub open spec fn contains_ignore_case(hay: Seq<u8>, needle: Seq<u8>) -> bool {
    contains_lowered(hay, lowered(needle))
}

/// The bytes of a name or string value.
pub open spec fn value_bytes(v: EntryValue) -> Option<Seq<u8>> {
    match v {
        EntryValue::Name(n) => Some(n@),
        EntryValue::Str(b) => Some(b@),
        EntryValue::Other => None,
    }
}

/// Bytes that are valid UTF-8 and whose text the pattern matches.
pub open spec fn utf8_matches(b: Seq<u8>, pattern: Seq<char>) -> bool {
    valid_utf8(b) && regex_is_match(pattern, decode_utf8(b))
}

/// Whether an object satisfies one condition.
pub open spec fn holds(obj: SearchObject, c: SearchSpec) -> bool {
    let es = entries_of(obj);
    match c {
        SearchSpec::KeyEquals(k, v) => match dict_get(es, k) {
            Some(val) => match value_bytes(val) {
                Some(b) => bytes_eq_ignore_case(b, v),
                None => false,
            },
            None => false,
        },
        SearchSpec::HasKey(k) => dict_get(es, k) is Some,
        SearchSpec::ValueContains(t) => exists|j: int| 0 <= j < es.len() && match value_bytes(#[trigger] es[j].1) {
            Some(b) => contains_lowered(b, encode_utf8(lowercase(t))),
            None => false,
        },
        SearchSpec::StreamContains(t) => match decoded_of(obj) {
            Some(d) => contains_ignore_case(d, encode_utf8(t)),
            None => false,
        },
        SearchSpec::RegexMatch(p) => {
            ||| exists|j: int| 0 <= j < es.len() && (utf8_matches((#[trigger] es[j]).0@, p) || match value_bytes(es[j].1) {
                Some(b) => utf8_matches(b, p),
                None => false,
            })
            ||| match decoded_of(obj) {
                Some(d) => regex_is_match(p, utf8_lossy(d)),
                None => false,
            }
        },
    }
}

/// An object matches when it is a dictionary or a stream and satisfies
/// every condition.
pub open spec fn matches_all(obj: SearchObject, cs: Seq<SearchSpec>) -> bool {
    !(obj is Other) && forall|i: int| 0 <= i < cs.len() ==> holds(obj, #[trigger] cs[i])
}

/// The conditions a parse can give: texts are never empty.
pub open spec fn conditions_wf(cs: Seq<SearchSpec>) -> bool {
    forall|i: int| 0 <= i < cs.len() ==> match #[trigger] cs[i] {
        SearchSpec::ValueContains(t) => t.len() > 0,
        SearchSpec::StreamContains(t) => t.len() > 0,
        _ => true,
    }
}

fn dict_find(es: &Vec<(Vec<u8>, EntryValue)>, key: &Vec<u8>) -> (r: Option<usize>)
    ensures
        match r {
            Some(j) => j < es@.len() && dict_get(es@, key@) == Some(es@[j as int].1),
            None => dict_get(es@, key@) is None,
        },
{
    let mut i: usize = 0;
    assert(es@.skip(0) =~= es@);
    while i < es.len()
        invariant
            i <= es@.len(),
            dict_get(es@, key@) == dict_get(es@.skip(i as int), key@),
        decreases es.len() - i,
    {
        assert(es@.skip(i as int).drop_first() =~= es@.skip(i + 1));
        if bytes_equal(&es[i].0, key) {
            return Some(i);
        }
        i = i + 1;
    }
    None
}

fn bytes_equal(a: &Vec<u8>, b: &Vec<u8>) -> (r: bool)
    ensures
        r == (a@ == b@),
{
    if a.len() != b.len() {
        return false;
    }
    let mut i: usize = 0;
    while i < a.len()
        invariant
            a@.len() == b@.len(),
            i <= a@.len(),
            forall|j: int| 0 <= j < i ==> a@[j] == b@[j],
        decreases a.len() - i,
    {
        if a[i] != b[i] {
            return false;
        }
        i = i + 1;
    }
    assert(a@ =~= b@);
    true
}

fn lower_b(b: u8) -> (r: u8)
    ensures
        r == lower_byte(b),
{
    if 65 <= b && b <= 90 {
        b + 32
    } else {
        b
    }
}

fn bytes_eq_ic(a: &[u8], b: &[u8]) -> (r: bool)
    ensures
        r == bytes_eq_ignore_case(a@, b@),
{
    if a.len() != b.len() {
        return false;
    }
    let mut i: usize = 0;
    while i < a.len()
        invariant
            a@.len() == b@.len(),
            i <= a@.len(),
            forall|j: int| 0 <= j < i ==> lower_byte(#[trigger] a@[j]) == lower_byte(b@[j]),
        decreases a.len() - i,
    {
        if lower_b(a[i]) != lower_b(b[i]) {
            return false;
        }
        i = i + 1;
    }
    true
}

/// Whether the lower-cased `needle` occurs in the lower-cased `hay` (the
/// needle is lowered only when `lower_needle` holds).
fn window_search(hay: &[u8], needle: &[u8], lower_needle: bool) -> (r: bool)
    ensures
        lower_needle ==> r == contains_ignore_case(hay@, needle@),
        !lower_needle ==> r == contains_lowered(hay@, needle@),
{
    let ghost want = if lower_needle { lowered(needle@) } else { needle@ };
    if needle.len() == 0 || needle.len() > hay.len() {
        proof {
            if needle@.len() > 0 {
                assert forall|i: int| !#[trigger] window_is(hay@, i, want) by {}
            }
        }
        return false;
    }
    let last = hay.len() - needle.len();
    let mut i: usize = 0;
    while i <= last
        invariant
            last + needle@.len() == hay@.len(),
            needle@.len() >= 1,
            want.len() == needle@.len(),
            want == (if lower_needle { lowered(needle@) } else { needle@ }),
            last < hay.len(),
            i <= last + 1,
            forall|j: int| 0 <= j < i ==> !#[trigger] window_is(hay@, j, want),
        decreases last + 1 - i,
    {
        let mut k: usize = 0;
        let mut ok = true;
        while k < needle.len()
            invariant
                i <= last,
                last + needle@.len() == hay@.len(),
                want.len() == needle@.len(),
                want == (if lower_needle { lowered(needle@) } else { needle@ }),
                k <= needle@.len(),
                ok == forall|m: int| 0 <= m < k ==> lower_byte(#[trigger] hay@[i + m]) == want[m],
            decreases needle.len() - k,
        {
            let w = if lower_needle { lower_b(needle[k]) } else { needle[k] };
            assert(w == want[k as int]);
            assert(i + k < hay.len());
            if lower_b(hay[i + k]) != w {
                ok = false;
            }
            k = k + 1;
        }
        let ghost win = lowered(hay@.subrange(i as int, i + needle@.len()));
        if ok {
            assert forall|m: int| 0 <= m < win.len() implies win[m] == want[m] by {
                assert(win[m] == lower_byte(hay@[i + m]));
            }
            assert(win =~= want);
            assert(window_is(hay@, i as int, want));
            return true;
        }
        proof {
            if window_is(hay@, i as int, want) {
                assert forall|m: int| 0 <= m < needle@.len() implies lower_byte(#[trigger] hay@[i + m]) == want[m] by {
                    assert(win[m] == lower_byte(hay@[i + m]));
                }
            }
        }
        i = i + 1;
    }
    proof {
        assert forall|j: int| !#[trigger] window_is(hay@, j, want) by {
            if 0 <= j && j < i {
            }
        }
    }
    false
}

fn value_slice(v: &EntryValue) -> (r: Option<&[u8]>)
    ensures
        match r {
            Some(b) => value_bytes(*v) == Some(b@),
            None => value_bytes(*v) is None,
        },
{
    match v {
        EntryValue::Name(n) => Some(n.as_slice()),
        EntryValue::Str(b) => Some(b.as_slice()),
        EntryValue::Other => None,
    }
}

fn regex_on_bytes(c: &CompiledRegex, b: &[u8]) -> (r: bool)
    ensures
        r == utf8_matches(b@, c.pattern()),
{
    match utf8_text(b) {
        Some(t) => regex_matches(c, t),
        None => false,
    }
}

/// Whether one condition holds, given the decoded stream (if any).
fn condition_holds(
    obj: &SearchObject,
    es: &Vec<(Vec<u8>, EntryValue)>,
    decoded: &Option<Vec<u8>>,
    c: &SearchCondition,
) -> (r: bool)
    requires
        es@ == entries_of(*obj),
        match decoded {
            Some(d) => decoded_of(*obj) == Some(d@),
            None => decoded_of(*obj) is None,
        },
    ensures
        r == holds(*obj, cond_spec(*c)),
{
    match c {
        SearchCondition::KeyEquals { key, value } => match dict_find(es, key) {
            Some(j) => match value_slice(&es[j].1) {
                Some(b) => bytes_eq_ic(b, value.as_slice()),
                None => false,
            },
            None => false,
        },
        SearchCondition::HasKey { key } => dict_find(es, key).is_some(),
        SearchCondition::ValueContains { text } => {
            let lowered = to_lower(text.as_str());
            let needle = lowered.as_str().as_bytes();
            let mut j: usize = 0;
            while j < es.len()
                invariant
                    j <= es@.len(),
                    es@ == entries_of(*obj),
                    cond_spec(*c) == SearchSpec::ValueContains(text@),
                    needle@ == encode_utf8(lowercase(text@)),
                    forall|q: int| 0 <= q < j ==> !(match value_bytes(#[trigger] es@[q].1) {
                        Some(b) => contains_lowered(b, needle@),
                        None => false,
                    }),
                decreases es.len() - j,
            {
                if let Some(b) = value_slice(&es[j].1) {
                    if window_search(b, needle, false) {
                        assert(match value_bytes(entries_of(*obj)[j as int].1) {
                            Some(b) => contains_lowered(b, encode_utf8(lowercase(text@))),
                            None => false,
                        });
                        return true;
                    }
                }
                j = j + 1;
            }
            false
        },
        SearchCondition::StreamContains { text } => match decoded {
            Some(d) => window_search(d.as_slice(), text.as_str().as_bytes(), true),
            None => false,
        },
        SearchCondition::RegexMatch { pattern } => {
            let mut j: usize = 0;
            while j < es.len()
                invariant
                    j <= es@.len(),
                    es@ == entries_of(*obj),
                    cond_spec(*c) == SearchSpec::RegexMatch(pattern.pattern()),
                    match decoded {
                        Some(d) => decoded_of(*obj) == Some(d@),
                        None => decoded_of(*obj) is None,
                    },
                    forall|q: int| 0 <= q < j ==> !(utf8_matches((#[trigger] es@[q]).0@, pattern.pattern()) || match value_bytes(es@[q].1) {
                        Some(b) => utf8_matches(b, pattern.pattern()),
                        None => false,
                    }),
                decreases es.len() - j,
            {
                let key_hit = regex_on_bytes(pattern, es[j].0.as_slice());
                let value_hit = match value_slice(&es[j].1) {
                    Some(b) => regex_on_bytes(pattern, b),
                    None => false,
                };
                if key_hit || value_hit {
                    assert(utf8_matches(es@[j as int].0@, pattern.pattern()) || match value_bytes(es@[j as int].1) {
                        Some(b) => utf8_matches(b, pattern.pattern()),
                        None => false,
                    });
                    return true;
                }
                j = j + 1;
            }
            match decoded {
                Some(d) => {
                    let text = lossy_string(d.as_slice());
                    regex_matches(pattern, text.as_str())
                },
                None => false,
            }
        },
    }
}

fn cow_to_vec(c: Cow<'_, [u8]>) -> (r: Vec<u8>)
    ensures
        r@ == c@,
{
    match c {
        Cow::Borrowed(b) => vstd::slice::slice_to_vec(b),
        Cow::Owned(v) => v,
    }
}

/// Whether an object satisfies every condition; only dictionaries and
/// streams can. A stream is decoded once, and only when a condition reads
/// its content.
pub fn object_matches(obj: &SearchObject, conditions: &[SearchCondition]) -> (r: bool)
    requires
        conditions_wf(cond_specs(conditions@)),
    ensures
        r == matches_all(*obj, cond_specs(conditions@)),
{
    let es = match obj {
        SearchObject::Dictionary(es) => es,
        SearchObject::Stream(es, _) => es,
        SearchObject::Other => {
            return false;
        },
    };
    let mut needs_stream = false;
    let mut i: usize = 0;
    while i < conditions.len()
        invariant
            i <= conditions@.len(),
        decreases conditions.len() - i,
    {
        match &conditions[i] {
            SearchCondition::StreamContains { .. } => {
                needs_stream = true;
            },
            SearchCondition::RegexMatch { .. } => {
                needs_stream = true;
            },
            _ => {},
        }
        i = i + 1;
    }
    let decoded: Option<Vec<u8>> = match obj {
        SearchObject::Stream(_, s) => {
            let (d, _) = decode_stream(s);
            Some(cow_to_vec(d))
        },
        _ => None,
    };
    let mut k: usize = 0;
    while k < conditions.len()
        invariant
            k <= conditions@.len(),
            es@ == entries_of(*obj),
            !(*obj is Other),
            match decoded {
                Some(d) => decoded_of(*obj) == Some(d@),
                None => decoded_of(*obj) is None,
            },
            forall|q: int| 0 <= q < k ==> holds(*obj, #[trigger] cond_specs(conditions@)[q]),
        decreases conditions.len() - k,
    {
        if !condition_holds(obj, es, &decoded, &conditions[k]) {
            assert(!holds(*obj, cond_specs(conditions@)[k as int]));
            return false;
        }
        k = k + 1;
    }
    true
}

proof fn lemma_conditions_wf(parts: Seq<Seq<char>>)
    ensures
        conditions_of(parts) matches Ok(cs) ==> conditions_wf(cs),
    decreases parts.len(),
{
    if parts.len() > 0 {
        lemma_conditions_wf(parts.drop_first());
        let p = trim(parts[0]);
        if p.len() > 0 {
            if let Ok(c) = condition_of(p) {
                if let Ok(cs) = conditions_of(parts.drop_first()) {
                    let all = seq![c] + cs;
                    assert forall|i: int| 0 <= i < all.len() implies match #[trigger] all[i] {
                        SearchSpec::ValueContains(t) => t.len() > 0,
                        SearchSpec::StreamContains(t) => t.len() > 0,
                        _ => true,
                    } by {
                        if i > 0 {
                            assert(all[i] == cs[i - 1]);
                        }
                    }
                }
            }
        }
    }
}

/// Every condition a successful parse gives has a non-empty text, so it can
/// be tested with `object_matches`.
pub proof fn law_parsed_conditions_are_testable(expr: Seq<char>)
    ensures
        search_expr_spec(expr) matches Ok(cs) ==> conditions_wf(cs) && cs.len() > 0,
{
    lemma_conditions_wf(split_pieces(expr, ','));
}

} // verus!
