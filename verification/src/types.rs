//! Command-line modes, page selections and object-number lists.
use vstd::prelude::*;
use crate::textbuf::{
    dec, split_pieces, find_char, find_first, parse_u32, parse_u32_chars, quoted, range_msg, str_chars, trim,
    trim_bounds,
};

verus! {

broadcast use vstd::seq_lib::group_seq_properties;

/// Sub-views of the `--detail` flag.
#[derive(Debug, Clone, Copy, PartialEq, Eq, Structural, PartialOrd, Ord)]
pub enum DetailSub {
    /// Encryption and permission details
    Security,
    /// Embedded file attachments
    Embedded,
    /// Page label numbering scheme
    Labels,
    /// Optional content groups (layers)
    Layers,
}

/// A document-level mode; several can be combined in one run.
#[derive(Debug, Clone, Copy, PartialEq, Eq, Structural, PartialOrd, Ord)]
pub enum DocMode {
    List,
    Validate,
    Fonts,
    Images,
    Forms,
    Bookmarks,
    Annotations,
    Text,
    Operators,
    Tags,
    Tree,
    FindText,
    Detail(DetailSub),
}

/// The section heading of a mode.
pub open spec fn label_of(m: DocMode) -> Seq<char> {
    match m {
        DocMode::List => "List"@,
        DocMode::Validate => "Validate"@,
        DocMode::Fonts => "Fonts"@,
        DocMode::Images => "Images"@,
        DocMode::Forms => "Forms"@,
        DocMode::Bookmarks => "Bookmarks"@,
        DocMode::Annotations => "Annotations"@,
        DocMode::Text => "Text"@,
        DocMode::Operators => "Operators"@,
        DocMode::Tags => "Tags"@,
        DocMode::Tree => "Tree"@,
        DocMode::FindText => "Find Text"@,
        DocMode::Detail(DetailSub::Security) => "Security"@,
        DocMode::Detail(DetailSub::Embedded) => "Embedded Files"@,
        DocMode::Detail(DetailSub::Labels) => "Page Labels"@,
        DocMode::Detail(DetailSub::Layers) => "Layers"@,
    }
}

/// The key under which a mode's output appears in combined JSON.
pub open spec fn json_key_of(m: DocMode) -> Seq<char> {
    match m {
        DocMode::List => "list"@,
        DocMode::Validate => "validate"@,
        DocMode::Fonts => "fonts"@,
        DocMode::Images => "images"@,
        DocMode::Forms => "forms"@,
        DocMode::Bookmarks => "bookmarks"@,
        DocMode::Annotations => "annotations"@,
        DocMode::Text => "text"@,
        DocMode::Operators => "operators"@,
        DocMode::Tags => "tags"@,
        DocMode::Tree => "tree"@,
        DocMode::FindText => "find_text"@,
        DocMode::Detail(DetailSub::Security) => "security"@,
        DocMode::Detail(DetailSub::Embedded) => "embedded_files"@,
        DocMode::Detail(DetailSub::Labels) => "page_labels"@,
        DocMode::Detail(DetailSub::Layers) => "layers"@,
    }
}

impl DocMode {
    pub fn label(&self) -> (r: &'static str)
        ensures
            r@ == label_of(*self),
    {
        match self {
            DocMode::List => "List",
            DocMode::Validate => "Validate",
            DocMode::Fonts => "Fonts",
            DocMode::Images => "Images",
            DocMode::Forms => "Forms",
            DocMode::Bookmarks => "Bookmarks",
            DocMode::Annotations => "Annotations",
            DocMode::Text => "Text",
            DocMode::Operators => "Operators",
            DocMode::Tags => "Tags",
            DocMode::Tree => "Tree",
            DocMode::FindText => "Find Text",
            DocMode::Detail(DetailSub::Security) => "Security",
            DocMode::Detail(DetailSub::Embedded) => "Embedded Files",
            DocMode::Detail(DetailSub::Labels) => "Page Labels",
            DocMode::Detail(DetailSub::Layers) => "Layers",
        }
    }

    pub fn json_key(&self) -> (r: &'static str)
        ensures
            r@ == json_key_of(*self),
    {
        match self {
            DocMode::List => "list",
            DocMode::Validate => "validate",
            DocMode::Fonts => "fonts",
            DocMode::Images => "images",
            DocMode::Forms => "forms",
            DocMode::Bookmarks => "bookmarks",
            DocMode::Annotations => "annotations",
            DocMode::Text => "text",
            DocMode::Operators => "operators",
            DocMode::Tags => "tags",
            DocMode::Tree => "tree",
            DocMode::FindText => "find_text",
            DocMode::Detail(DetailSub::Security) => "security",
            DocMode::Detail(DetailSub::Embedded) => "embedded_files",
            DocMode::Detail(DetailSub::Labels) => "page_labels",
            DocMode::Detail(DetailSub::Layers) => "layers",
        }
    }
}

/// A selection of pages.
#[derive(Debug, Clone, Copy, PartialEq, Eq, Structural)]
pub enum PageSpec {
    Single(u32),
    Range(u32, u32),
    /// Open-ended range: `start-` means "from `start` to the last page".
    /// Resolution against the document's page count happens at the call site.
    OpenRange(u32),
}

/// The message for a page number of zero.
pub open spec fn page_zero_msg() -> Seq<char> {
    "Page numbers must be >= 1"@
}

/// What `PageSpec::parse` gives for the text `s`.
pub open spec fn spec_page_parse(s: Seq<char>) -> Result<PageSpec, Seq<char>> {
    match find_first(s, '-') {
        Some(i) => {
            let a = trim(s.take(i));
            let b = trim(s.skip(i + 1));
            match parse_u32(a) {
                None => Err("Invalid page range start: '"@ + a + "'"@),
                Some(start) => if start == 0 {
                    Err(page_zero_msg())
                } else if b.len() == 0 {
                    Ok(PageSpec::OpenRange(start))
                } else {
                    match parse_u32(b) {
                        None => Err("Invalid page range end: '"@ + b + "'"@),
                        Some(end) => if end == 0 {
                            Err(page_zero_msg())
                        } else if start > end {
                            Err("Invalid page range: "@ + dec(start as nat) + " > "@ + dec(end as nat))
                        } else {
                            Ok(PageSpec::Range(start, end))
                        },
                    }
                },
            }
        },
        None => {
            let t = trim(s);
            match parse_u32(t) {
                None => Err("Invalid page number: '"@ + t + "'"@),
                Some(n) => if n == 0 {
                    Err(page_zero_msg())
                } else {
                    Ok(PageSpec::Single(n))
                },
            }
        },
    }
}

/// A result with its error text taken by view.
pub open spec fn res_view<T>(r: Result<T, String>) -> Result<T, Seq<char>> {
    match r {
        Ok(t) => Ok(t),
        Err(e) => Err(e@),
    }
}

/// Whether page `page` lies in the selection.
pub open spec fn spec_contains(ps: PageSpec, page: u32) -> bool {
    match ps {
        PageSpec::Single(n) => page == n,
        PageSpec::Range(start, end) => start <= page && page <= end,
        PageSpec::OpenRange(start) => page >= start,
    }
}

/// The consecutive numbers `start..=end` (empty when `start > end`).
pub open spec fn num_range(start: u32, end: u32) -> Seq<u32> {
    Seq::new(
        if start <= end {
            (end - start + 1) as nat
        } else {
            0
        },
        |i: int| (start + i) as u32,
    )
}

/// The explicit page numbers of a selection (none for an open range).
pub open spec fn spec_pages(ps: PageSpec) -> Seq<u32> {
    match ps {
        PageSpec::Single(n) => seq![n],
        PageSpec::Range(start, end) => num_range(start, end),
        PageSpec::OpenRange(_) => Seq::empty(),
    }
}

/// The numbers `start..=end` in a vector.
pub fn range_vec(start: u32, end: u32) -> (v: Vec<u32>)
    ensures
        v@ == num_range(start, end),
{
    let mut v: Vec<u32> = Vec::new();
    if start > end {
        assert(v@ =~= num_range(start, end));
        return v;
    }
    let mut p: u64 = start as u64;
    while p <= end as u64
        invariant
            start <= end,
            start <= p <= end as u64 + 1,
            v@ == num_range(start, end).take(p - start),
        decreases end as u64 + 1 - p,
    {
        v.push(p as u32);
        assert(num_range(start, end).take(p + 1 - start) =~= num_range(start, end).take(p - start).push(
            p as u32,
        ));
        p = p + 1;
    }
    assert(num_range(start, end).take(end + 1 - start) =~= num_range(start, end));
    v
}

impl PageSpec {
    pub fn parse(s: &str) -> (r: Result<PageSpec, String>)
        ensures
            res_view(r) == spec_page_parse(s@),
    {
        let v = str_chars(s);
        let n = v.len();
        assert(v@.subrange(0, n as int) =~= s@);
        match find_char(&v, 0, n, '-') {
            Some(i) => {
                assert(s@.take(i as int) =~= v@.subrange(0, i as int));
                assert(s@.skip(i + 1) =~= v@.subrange(i + 1, n as int));
                let (a0, a1) = trim_bounds(&v, 0, i);
                let (b0, b1) = trim_bounds(&v, i + 1, n);
                let start = match parse_u32_chars(&v, a0, a1) {
                    None => {
                        return Err(quoted("Invalid page range start: '", &v, a0, a1));
                    },
                    Some(x) => x,
                };
                if start == 0 {
                    return Err("Page numbers must be >= 1".to_string());
                }
                if b0 == b1 {
                    return Ok(PageSpec::OpenRange(start));
                }
                let end = match parse_u32_chars(&v, b0, b1) {
                    None => {
                        return Err(quoted("Invalid page range end: '", &v, b0, b1));
                    },
                    Some(x) => x,
                };
                if end == 0 {
                    return Err("Page numbers must be >= 1".to_string());
                }
                if start > end {
                    return Err(range_msg("Invalid page range: ", start, end));
                }
                Ok(PageSpec::Range(start, end))
            },
            None => {
                let (t0, t1) = trim_bounds(&v, 0, n);
                let num = match parse_u32_chars(&v, t0, t1) {
                    None => {
                        return Err(quoted("Invalid page number: '", &v, t0, t1));
                    },
                    Some(x) => x,
                };
                if num == 0 {
                    return Err("Page numbers must be >= 1".to_string());
                }
                Ok(PageSpec::Single(num))
            },
        }
    }

    pub fn contains(&self, page: u32) -> (r: bool)
        ensures
            r == spec_contains(*self, page),
    {
        match self {
            PageSpec::Single(n) => page == *n,
            PageSpec::Range(start, end) => page >= *start && page <= *end,
            PageSpec::OpenRange(start) => page >= *start,
        }
    }

    /// Returns the explicit page numbers for `Single`/`Range`.
    /// `OpenRange` returns an empty Vec: callers that need to enumerate it
    /// must filter the document's pages through `contains()`.
    pub fn pages(&self) -> (r: Vec<u32>)
        ensures
            r@ == spec_pages(*self),
    {
        match self {
            PageSpec::Single(n) => {
                let v = vec![*n];
                assert(v@ =~= seq![*n]);
                v
            },
            PageSpec::Range(start, end) => range_vec(*start, *end),
            PageSpec::OpenRange(_) => Vec::new(),
        }
    }
}

/// The message for a text that is not an object number.
pub open spec fn bad_object_msg(t: Seq<char>) -> Seq<char> {
    "Invalid object number: '"@ + t + "'"@
}

/// The object numbers one comma-separated piece denotes (`p` already trimmed).
#[verifier::opaque]
pub open spec fn piece_numbers(p: Seq<char>) -> Result<Seq<u32>, Seq<char>> {
    if p.len() == 0 {
        Ok(Seq::empty())
    } else {
        match find_first(p, '-') {
            Some(i) => {
                let a = trim(p.take(i));
                let b = trim(p.skip(i + 1));
                match parse_u32(a) {
                    None => Err(bad_object_msg(a)),
                    Some(x) => match parse_u32(b) {
                        None => Err(bad_object_msg(b)),
                        Some(y) => if x > y {
                            Err("Invalid object range: "@ + dec(x as nat) + " > "@ + dec(y as nat))
                        } else {
                            Ok(num_range(x, y))
                        },
                    },
                }
            },
            None => match parse_u32(p) {
                None => Err(bad_object_msg(p)),
                Some(n) => Ok(seq![n]),
            },
        }
    }
}

/// The object numbers of a list of pieces, in order; the first bad piece's
/// error otherwise.
pub open spec fn pieces_numbers(ps: Seq<Seq<char>>) -> Result<Seq<u32>, Seq<char>>
    decreases ps.len(),
{
    if ps.len() == 0 {
        Ok(Seq::empty())
    } else {
        match piece_numbers(trim(ps[0])) {
            Err(e) => Err(e),
            Ok(ns) => match pieces_numbers(ps.drop_first()) {
                Err(e) => Err(e),
                Ok(rest) => Ok(ns + rest),
            },
        }
    }
}

/// The object numbers (in writing order, with repeats) an object
/// specification denotes.
pub open spec fn object_spec_numbers(s: Seq<char>) -> Result<Seq<u32>, Seq<char>> {
    pieces_numbers(split_pieces(s, ','))
}

/// Strictly ascending, hence free of repeats.
pub open spec fn strictly_ascending(s: Seq<u32>) -> bool {
    forall|i: int, j: int| 0 <= i < j < s.len() ==> s[i] < s[j]
}

/// `acc` followed by what `r` holds, or `r`'s error.
pub open spec fn after(acc: Seq<u32>, r: Result<Seq<u32>, Seq<char>>) -> Result<Seq<u32>, Seq<char>> {
    match r {
        Err(e) => Err(e),
        Ok(rest) => Ok(acc + rest),
    }
}

/// What `parse_object_spec` owes for the text `s`.
pub open spec fn object_spec_result(s: Seq<char>, r: Result<Vec<u32>, String>) -> bool {
    match object_spec_numbers(s) {
        Err(e) => r is Err && r->Err_0@ == e,
        Ok(ns) => if ns.len() == 0 {
            r is Err && r->Err_0@ == "Empty object specification"@
        } else {
            &&& r is Ok
            &&& strictly_ascending(r->Ok_0@)
            &&& forall|x: u32| r->Ok_0@.contains(x) <==> ns.contains(x)
        },
    }
}

/// Appends the numbers of the trimmed piece `v[lo..hi]` to `acc`.
fn push_piece_numbers(v: &Vec<char>, lo: usize, hi: usize, acc: &mut Vec<u32>) -> (r: Result<(), String>)
    requires
        lo <= hi <= v.len(),
    ensures
        match piece_numbers(v@.subrange(lo as int, hi as int)) {
            Err(e) => r is Err && r->Err_0@ == e,
            Ok(ns) => r is Ok && final(acc)@ == old(acc)@ + ns,
        },
{
    reveal(piece_numbers);
    let ghost p = v@.subrange(lo as int, hi as int);
    if lo == hi {
        assert(old(acc)@ + Seq::<u32>::empty() =~= old(acc)@);
        return Ok(());
    }
    match find_char(v, lo, hi, '-') {
        Some(i) => {
            assert(p.take(i - lo) =~= v@.subrange(lo as int, i as int));
            assert(p.skip(i - lo + 1) =~= v@.subrange(i + 1, hi as int));
            let (a0, a1) = trim_bounds(v, lo, i);
            let (b0, b1) = trim_bounds(v, i + 1, hi);
            let x = match parse_u32_chars(v, a0, a1) {
                None => {
                    return Err(quoted("Invalid object number: '", v, a0, a1));
                },
                Some(x) => x,
            };
            let y = match parse_u32_chars(v, b0, b1) {
                None => {
                    return Err(quoted("Invalid object number: '", v, b0, b1));
                },
                Some(y) => y,
            };
            if x > y {
                return Err(range_msg("Invalid object range: ", x, y));
            }
            let mut nums = range_vec(x, y);
            acc.append(&mut nums);
            Ok(())
        },
        None => {
            match parse_u32_chars(v, lo, hi) {
                None => Err(quoted("Invalid object number: '", v, lo, hi)),
                Some(n) => {
                    acc.push(n);
                    assert(final(acc)@ =~= old(acc)@ + seq![n]);
                    Ok(())
                },
            }
        },
    }
}

/// Sorts numbers ascending.
///
/// Trusted: `slice::sort_unstable` permutes the elements into ascending order.
#[verifier::external_body]
fn sort_u32s(v: &mut Vec<u32>)
    ensures
        final(v)@.to_multiset() == old(v)@.to_multiset(),
        forall|i: int, j: int| 0 <= i <= j < final(v)@.len() ==> final(v)@[i] <= final(v)@[j],
{
    v.sort_unstable();
}

/// The distinct values of an ascending list, each once.
fn dedup_sorted(v: &Vec<u32>) -> (r: Vec<u32>)
    requires
        forall|i: int, j: int| 0 <= i <= j < v@.len() ==> v@[i] <= v@[j],
    ensures
        strictly_ascending(r@),
        forall|x: u32| r@.contains(x) <==> v@.contains(x),
{
    let mut r: Vec<u32> = Vec::new();
    let mut i: usize = 0;
    while i < v.len()
        invariant
            0 <= i <= v.len(),
            forall|a: int, b: int| 0 <= a <= b < v@.len() ==> v@[a] <= v@[b],
            strictly_ascending(r@),
            forall|x: u32| r@.contains(x) <==> v@.take(i as int).contains(x),
            i > 0 ==> r@.len() > 0 && r@.last() == v@[i - 1],
            i == 0 ==> r@.len() == 0,
        decreases v.len() - i,
    {
        let x = v[i];
        let ghost old_r = r@;
        if r.len() == 0 || r[r.len() - 1] != x {
            r.push(x);
            assert forall|a: int, b: int| 0 <= a < b < r@.len() implies r@[a] < r@[b] by {
                if b == r@.len() - 1 && a < b {
                    assert(old_r[a] <= old_r.last());
                    assert(v@[i - 1] <= v@[i as int]);
                }
            }
        }
        assert(v@.take(i + 1) =~= v@.take(i as int).push(x));
        assert forall|y: u32| r@.contains(y) <==> v@.take(i + 1).contains(y) by {
            if r@.len() > old_r.len() {
                assert(r@ =~= old_r.push(x));
            }
        }
        i = i + 1;
    }
    assert(v@.take(v@.len() as int) =~= v@);
    r
}

pub(crate) proof fn lemma_split_step(s: Seq<char>, pos: int, i: int)
    requires
        0 <= pos <= i < s.len(),
        find_first(s.skip(pos), ',') == Some(i - pos),
    ensures
        split_pieces(s.skip(pos), ',') == seq![s.subrange(pos, i)] + split_pieces(s.skip(i + 1), ','),
{
    let rest = s.skip(pos);
    assert(rest.take(i - pos) =~= s.subrange(pos, i));
    assert(rest.skip(i - pos + 1) =~= s.skip(i + 1));
}

proof fn lemma_pieces_cons(p: Seq<char>, rest: Seq<Seq<char>>)
    ensures
        pieces_numbers(seq![p] + rest) == match piece_numbers(trim(p)) {
            Err(e) => Err(e),
            Ok(ns) => after(ns, pieces_numbers(rest)),
        },
{
    let ps = seq![p] + rest;
    assert(ps[0] == p);
    assert(ps.drop_first() =~= rest);
}

/// Consumes the piece of `v` that starts at `pos`: appends its numbers to
/// `acc` and gives the start of the next piece, if there is one.
fn step_piece(v: &Vec<char>, pos: usize, acc: &mut Vec<u32>) -> (r: Result<Option<usize>, String>)
    requires
        pos <= v.len(),
    ensures
        match r {
            Err(e) => pieces_numbers(split_pieces(v@.skip(pos as int), ',')) == Err::<Seq<u32>, Seq<char>>(e@),
            Ok(Some(next)) => pos < next <= v@.len() && after(
                old(acc)@,
                pieces_numbers(split_pieces(v@.skip(pos as int), ',')),
            ) == after(final(acc)@, pieces_numbers(split_pieces(v@.skip(next as int), ','))),
            Ok(None) => after(old(acc)@, pieces_numbers(split_pieces(v@.skip(pos as int), ',')))
                == Ok::<Seq<u32>, Seq<char>>(final(acc)@),
        },
{
    let n = v.len();
    let ghost s = v@;
    assert(v@.subrange(pos as int, n as int) =~= s.skip(pos as int));
    let found = find_char(v, pos, n, ',');
    let end = match found {
        Some(i) => i,
        None => n,
    };
    let (t0, t1) = trim_bounds(v, pos, end);
    let ghost before = acc@;
    proof {
        match found {
            Some(i) => {
                lemma_split_step(s, pos as int, i as int);
                lemma_pieces_cons(s.subrange(pos as int, i as int), split_pieces(s.skip(i + 1), ','));
            },
            None => {
                assert(split_pieces(s.skip(pos as int), ',') == seq![s.skip(pos as int)]);
                assert(seq![s.skip(pos as int)] =~= seq![s.skip(pos as int)] + Seq::<Seq<char>>::empty());
                lemma_pieces_cons(s.skip(pos as int), Seq::empty());
                assert(s.skip(pos as int) =~= v@.subrange(pos as int, n as int));
            },
        }
    }
    match push_piece_numbers(v, t0, t1, acc) {
        Err(e) => {
            return Err(e);
        },
        Ok(()) => {},
    }
    let ghost ns = acc@.skip(before.len() as int);
    assert(acc@ =~= before + ns);
    match found {
        Some(i) => {
            proof {
                let nr = pieces_numbers(split_pieces(s.skip(i + 1), ','));
                if nr is Ok {
                    assert(before + (ns + nr->Ok_0) =~= acc@ + nr->Ok_0);
                }
            }
            Ok(Some(i + 1))
        },
        None => {
            assert(ns + Seq::<u32>::empty() =~= ns);
            Ok(None)
        },
    }
}

/// Parses an object-number list such as `1,5,10-12` into ascending distinct
/// numbers.
pub fn parse_object_spec(s: &str) -> (r: Result<Vec<u32>, String>)
    ensures
        object_spec_result(s@, r),
{
    let v = str_chars(s);
    let n = v.len();
    let mut acc: Vec<u32> = Vec::new();
    let mut pos: usize = 0;
    assert(s@.skip(0) =~= s@);
    assert(Seq::<u32>::empty() + Seq::<u32>::empty() =~= Seq::<u32>::empty());
    loop
        invariant_except_break
            pos <= n == v@.len(),
            v@ == s@,
            object_spec_numbers(s@) == after(acc@, pieces_numbers(split_pieces(s@.skip(pos as int), ','))),
        ensures
            object_spec_numbers(s@) == Ok::<Seq<u32>, Seq<char>>(acc@),
        decreases n - pos,
    {
        match step_piece(&v, pos, &mut acc) {
            Err(e) => {
                return Err(e);
            },
            Ok(Some(next)) => {
                pos = next;
            },
            Ok(None) => {
                break;
            },
        }
    }
    if acc.len() == 0 {
        return Err("Empty object specification".to_string());
    }
    let ghost unsorted = acc@;
    sort_u32s(&mut acc);
    proof {
        unsorted.to_multiset_ensures();
        acc@.to_multiset_ensures();
        assert forall|x: u32| acc@.contains(x) <==> unsorted.contains(x) by {
            assert(acc@.to_multiset().count(x) == unsorted.to_multiset().count(x));
        }
    }
    let r = dedup_sorted(&acc);
    Ok(r)
}

/// The error `parse_object_spec` gives for `s`, if it gives one.
pub open spec fn object_spec_error(s: Seq<char>) -> Option<Seq<char>> {
    match object_spec_numbers(s) {
        Err(e) => Some(e),
        Ok(ns) => if ns.len() == 0 {
            Some("Empty object specification"@)
        } else {
            None
        },
    }
}

/// A mode that runs on its own.
#[derive(Debug)]
pub enum StandaloneMode {
    Object { nums: Vec<u32> },
    Inspect { obj_num: u32 },
    Search { expr: String, list_modifier: bool },
    ExtractStream { obj_num: u32, output: String },
}

/// What a run does, as resolved from the flags.
#[derive(Debug)]
pub enum ResolvedMode {
    Default,
    Combined(Vec<DocMode>),
    Standalone(StandaloneMode),
}

/// The flags of one run.
#[derive(Debug)]
pub struct Args {
    /// Path to the PDF file
    pub file: String,
    pub list: bool,
    pub validate: bool,
    pub text: bool,
    pub operators: bool,
    pub find_text: Option<String>,
    pub fonts: bool,
    pub images: bool,
    pub tree: bool,
    pub bookmarks: bool,
    pub tags: bool,
    pub annotations: bool,
    pub forms: bool,
    pub object: Option<String>,
    pub inspect: Option<u32>,
    pub search: Option<String>,
    pub detail: Vec<DetailSub>,
    pub extract_stream: Option<u32>,
    pub output: Option<String>,
    pub page: Option<String>,
    pub json: bool,
    pub decode: bool,
    pub deref: bool,
    pub depth: Option<usize>,
    pub hex: bool,
    pub truncate: Option<usize>,
    pub raw: bool,
    pub dot: bool,
}

/// No flag set and an empty file name.
pub open spec fn args_unset(a: Args) -> bool {
    &&& a.file@ == Seq::<char>::empty()
    &&& !a.list && !a.validate && !a.text && !a.operators && a.find_text is None
    &&& !a.fonts && !a.images && !a.tree && !a.bookmarks && !a.tags
    &&& !a.annotations && !a.forms && a.object is None && a.inspect is None
    &&& a.search is None && a.detail@.len() == 0 && a.extract_stream is None
    &&& a.output is None && a.page is None && !a.json && !a.decode && !a.deref
    &&& a.depth is None && !a.hex && a.truncate is None && !a.raw && !a.dot
}

impl Default for Args {
    fn default() -> (a: Args)
        ensures
            args_unset(a),
    {
        Args {
            file: String::new(),
            list: false,
            validate: false,
            text: false,
            operators: false,
            find_text: None,
            fonts: false,
            images: false,
            tree: false,
            bookmarks: false,
            tags: false,
            annotations: false,
            forms: false,
            object: None,
            inspect: None,
            search: None,
            detail: Vec::new(),
            extract_stream: None,
            output: None,
            page: None,
            json: false,
            decode: false,
            deref: false,
            depth: None,
            hex: false,
            truncate: None,
            raw: false,
            dot: false,
        }
    }
}

/// `seq![m]` when `b`, else nothing.
pub open spec fn mode_if(b: bool, m: DocMode) -> Seq<DocMode> {
    if b {
        seq![m]
    } else {
        Seq::empty()
    }
}

/// The document-level modes the flags ask for, in their fixed order.
pub open spec fn doc_modes_of(a: Args) -> Seq<DocMode> {
    mode_if(a.list && a.search is None, DocMode::List) + mode_if(a.validate, DocMode::Validate)
        + mode_if(a.fonts, DocMode::Fonts) + mode_if(a.images, DocMode::Images) + mode_if(
        a.forms,
        DocMode::Forms,
    ) + mode_if(a.bookmarks, DocMode::Bookmarks) + mode_if(a.annotations, DocMode::Annotations)
        + mode_if(a.text, DocMode::Text) + mode_if(a.operators, DocMode::Operators) + mode_if(
        a.tags,
        DocMode::Tags,
    ) + mode_if(a.tree, DocMode::Tree) + mode_if(a.find_text is Some, DocMode::FindText)
        + a.detail@.map_values(|d: DetailSub| DocMode::Detail(d))
}

/// How many standalone modes the flags ask for.
pub open spec fn standalone_count(a: Args) -> nat {
    (if a.extract_stream is Some && a.output is Some {
        1nat
    } else {
        0nat
    }) + (if a.object is Some {
        1nat
    } else {
        0nat
    }) + (if a.inspect is Some {
        1nat
    } else {
        0nat
    }) + (if a.search is Some {
        1nat
    } else {
        0nat
    })
}

/// The one standalone mode asked for is `m`.
pub open spec fn is_sole_standalone(a: Args, m: StandaloneMode) -> bool {
    match m {
        StandaloneMode::ExtractStream { obj_num, output } => a.extract_stream == Some(obj_num)
            && a.output is Some && output@ == a.output->0@,
        StandaloneMode::Object { nums } => a.object is Some && object_spec_result(
            a.object->0@,
            Ok(nums),
        ),
        StandaloneMode::Inspect { obj_num } => a.inspect == Some(obj_num),
        StandaloneMode::Search { expr, list_modifier } => a.search is Some && expr@
            == a.search->0@ && list_modifier == a.list,
    }
}

/// The message for standalone and document-level modes asked for together.
pub open spec fn mixed_modes_msg() -> Seq<char> {
    "Cannot combine standalone mode (--object, --inspect, --search, --extract-stream) with document-level modes."@
}

/// The message for two or more standalone modes.
pub open spec fn many_standalone_msg() -> Seq<char> {
    "Only one standalone mode may be used at a time (--object, --inspect, --search, --extract-stream)."@
}

/// What `resolve_mode` owes for the flags `a`.
pub open spec fn resolve_result(a: Args, r: Result<ResolvedMode, String>) -> bool {
    if a.object is Some && object_spec_error(a.object->0@) is Some {
        r is Err && r->Err_0@ == object_spec_error(a.object->0@)->0
    } else if standalone_count(a) > 0 && doc_modes_of(a).len() > 0 {
        r is Err && r->Err_0@ == mixed_modes_msg()
    } else if standalone_count(a) > 1 {
        r is Err && r->Err_0@ == many_standalone_msg()
    } else if standalone_count(a) == 1 {
        r matches Ok(ResolvedMode::Standalone(m)) && is_sole_standalone(a, m)
    } else if doc_modes_of(a).len() > 0 {
        r matches Ok(ResolvedMode::Combined(ms)) && ms@ == doc_modes_of(a)
    } else {
        r matches Ok(ResolvedMode::Default)
    }
}

/// Appends `m` to `v` when `b` holds.
fn push_mode_if(v: &mut Vec<DocMode>, b: bool, m: DocMode)
    ensures
        final(v)@ == old(v)@ + mode_if(b, m),
{
    if b {
        v.push(m);
        assert(final(v)@ =~= old(v)@ + seq![m]);
    } else {
        assert(final(v)@ =~= old(v)@ + Seq::<DocMode>::empty());
    }
}

impl Args {
    /// The document-level modes the flags ask for.
    fn collect_doc_modes(&self) -> (r: Vec<DocMode>)
        ensures
            r@ == doc_modes_of(*self),
    {
        let mut doc_modes: Vec<DocMode> = Vec::new();
        // When --search is active, --list is consumed as a search modifier, not a DocMode
        push_mode_if(&mut doc_modes, self.list && self.search.is_none(), DocMode::List);
        push_mode_if(&mut doc_modes, self.validate, DocMode::Validate);
        push_mode_if(&mut doc_modes, self.fonts, DocMode::Fonts);
        push_mode_if(&mut doc_modes, self.images, DocMode::Images);
        push_mode_if(&mut doc_modes, self.forms, DocMode::Forms);
        push_mode_if(&mut doc_modes, self.bookmarks, DocMode::Bookmarks);
        push_mode_if(&mut doc_modes, self.annotations, DocMode::Annotations);
        push_mode_if(&mut doc_modes, self.text, DocMode::Text);
        push_mode_if(&mut doc_modes, self.operators, DocMode::Operators);
        push_mode_if(&mut doc_modes, self.tags, DocMode::Tags);
        push_mode_if(&mut doc_modes, self.tree, DocMode::Tree);
        push_mode_if(&mut doc_modes, self.find_text.is_some(), DocMode::FindText);
        let ghost base = doc_modes@;
        let mut k: usize = 0;
        while k < self.detail.len()
            invariant
                k <= self.detail@.len(),
                doc_modes@ == base + self.detail@.take(k as int).map_values(
                    |d: DetailSub| DocMode::Detail(d),
                ),
            decreases self.detail.len() - k,
        {
            doc_modes.push(DocMode::Detail(self.detail[k]));
            assert(self.detail@.take(k + 1).map_values(|d: DetailSub| DocMode::Detail(d))
                =~= self.detail@.take(k as int).map_values(|d: DetailSub| DocMode::Detail(d)).push(
                DocMode::Detail(self.detail@[k as int]),
            ));
            k = k + 1;
        }
        assert(self.detail@.take(k as int) =~= self.detail@);
        assert(doc_modes@ =~= doc_modes_of(*self));
        doc_modes
    }

    pub fn resolve_mode(&self) -> (r: Result<ResolvedMode, String>)
        ensures
            resolve_result(*self, r),
    {
        // Collect standalone modes
        let mut standalone: Vec<StandaloneMode> = Vec::new();
        if let (Some(obj_num), Some(output)) = (self.extract_stream, self.output.as_ref()) {
            standalone.push(StandaloneMode::ExtractStream { obj_num, output: output.clone() });
        }
        if let Some(spec) = &self.object {
            let nums = match parse_object_spec(spec.as_str()) {
                Ok(nums) => nums,
                Err(e) => {
                    return Err(e);
                },
            };
            standalone.push(StandaloneMode::Object { nums });
        }
        if let Some(obj_num) = self.inspect {
            standalone.push(StandaloneMode::Inspect { obj_num });
        }
        if let Some(expr) = &self.search {
            standalone.push(StandaloneMode::Search { expr: expr.clone(), list_modifier: self.list });
        }
        let doc_modes = self.collect_doc_modes();
        // Standalone and document modes cannot be mixed
        if standalone.len() > 0 && doc_modes.len() > 0 {
            return Err(
                "Cannot combine standalone mode (--object, --inspect, --search, --extract-stream) with document-level modes.".to_string(),
            );
        }
        // At most one standalone mode
        if standalone.len() > 1 {
            return Err(
                "Only one standalone mode may be used at a time (--object, --inspect, --search, --extract-stream).".to_string(),
            );
        }
        if standalone.len() == 1 {
            let m = standalone.pop().unwrap();
            Ok(ResolvedMode::Standalone(m))
        } else if doc_modes.len() > 0 {
            Ok(ResolvedMode::Combined(doc_modes))
        } else {
            Ok(ResolvedMode::Default)
        }
    }
}

/// Output settings shared by the dumping views.
#[derive(Clone, Copy)]
pub struct DumpConfig {
    pub decode: bool,
    pub truncate: Option<usize>,
    pub json: bool,
    pub hex: bool,
    pub depth: Option<usize>,
    pub deref: bool,
    pub raw: bool,
}

} // verus!
