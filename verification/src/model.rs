//! The document model: objects by number and generation, their values, and
//! the references between them.
use vstd::prelude::*;
use vstd::utf8::encode_utf8;
use crate::stream::{array_names, spec_filter_names, FilterEntry, PdfStream};

verus! {

/// An object's number and generation.
#[derive(Clone, Copy, Debug, PartialEq, Eq, Structural)]
pub struct ObjRef {
    pub num: u32,
    pub gen: u16,
}

/// A PDF value.
#[derive(Debug)]
pub enum PdfValue {
    Null,
    Boolean(bool),
    Integer(i64),
    /// A real number, by its decimal text.
    Real(String),
    Name(Vec<u8>),
    Str(Vec<u8>),
    Array(Vec<PdfValue>),
    /// A dictionary's entries, in order.
    Dictionary(Vec<(Vec<u8>, PdfValue)>),
    /// A stream: its dictionary and its raw content.
    Stream { dict: Vec<(Vec<u8>, PdfValue)>, content: Vec<u8> },
    Reference(ObjRef),
}

/// The references in a value, in order: each array item, each dictionary
/// value (a stream's too), depth first.
pub open spec fn refs_of(v: PdfValue) -> Seq<ObjRef>
    decreases v,
{
    match v {
        PdfValue::Reference(r) => seq![r],
        PdfValue::Array(items) => refs_of_list(items@),
        PdfValue::Dictionary(es) => refs_of_entries(es@),
        PdfValue::Stream { dict, content } => refs_of_entries(dict@),
        _ => Seq::empty(),
    }
}

pub open spec fn refs_of_list(items: Seq<PdfValue>) -> Seq<ObjRef>
    decreases items,
{
    if items.len() == 0 {
        Seq::empty()
    } else {
        refs_of(items[0]) + refs_of_list(items.subrange(1, items.len() as int))
    }
}

pub open spec fn refs_of_entries(es: Seq<(Vec<u8>, PdfValue)>) -> Seq<ObjRef>
    decreases es,
{
    if es.len() == 0 {
        Seq::empty()
    } else {
        refs_of(es[0].1) + refs_of_entries(es.subrange(1, es.len() as int))
    }
}

/// Appends the references in a value, in order.
pub fn collect_refs(v: &PdfValue, out: &mut Vec<ObjRef>)
    ensures
        final(out)@ == old(out)@ + refs_of(*v),
    decreases v,
{
    match v {
        PdfValue::Reference(r) => {
            out.push(*r);
        },
        PdfValue::Array(items) => {
            let ghost start = out@;
            let mut i: usize = 0;
            assert(items@.subrange(0, items@.len() as int) =~= items@);
            while i < items.len()
                invariant
                    i <= items@.len(),
                    *v == PdfValue::Array(*items),
                    start + refs_of_list(items@) == out@ + refs_of_list(items@.subrange(i as int, items@.len() as int)),
                decreases items.len() - i,
            {
                let ghost rest = items@.subrange(i as int, items@.len() as int);
                assert(rest[0] == items@[i as int]);
                assert(rest.subrange(1, rest.len() as int) =~= items@.subrange(i + 1, items@.len() as int));
                let ghost before = out@;
                proof {
                    assert(decreases_to!(*v => (*v)->Array_0));
                    assert(decreases_to!(*items => items@));
                    assert(decreases_to!(items@ => items@[i as int]));
                }
                collect_refs(&items[i], out);
                assert(before + refs_of_list(rest) =~= out@ + refs_of_list(items@.subrange(i + 1, items@.len() as int)));
                i = i + 1;
            }
            assert(out@ + refs_of_list(items@.subrange(i as int, items@.len() as int)) =~= out@);
        },
        PdfValue::Dictionary(es) => {
            collect_entry_refs(es, out);
        },
        PdfValue::Stream { dict, content } => {
            collect_entry_refs(dict, out);
        },
        _ => {
            assert(old(out)@ + refs_of(*v) =~= old(out)@);
        },
    }
}

/// Appends the references in a dictionary's values, in order.
pub fn collect_entry_refs(es: &Vec<(Vec<u8>, PdfValue)>, out: &mut Vec<ObjRef>)
    ensures
        final(out)@ == old(out)@ + refs_of_entries(es@),
    decreases es,
{
    let ghost start = out@;
    let mut i: usize = 0;
    assert(es@.subrange(0, es@.len() as int) =~= es@);
    while i < es.len()
        invariant
            i <= es@.len(),
            start + refs_of_entries(es@) == out@ + refs_of_entries(es@.subrange(i as int, es@.len() as int)),
        decreases es.len() - i,
    {
        let ghost rest = es@.subrange(i as int, es@.len() as int);
        assert(rest[0] == es@[i as int]);
        assert(rest.subrange(1, rest.len() as int) =~= es@.subrange(i + 1, es@.len() as int));
        let ghost before = out@;
        proof {
            assert(decreases_to!(*es => es@[i as int].1));
        }
        collect_refs(&es[i].1, out);
        assert(before + refs_of_entries(rest) =~= out@ + refs_of_entries(es@.subrange(i + 1, es@.len() as int)));
        i = i + 1;
    }
    assert(out@ + refs_of_entries(es@.subrange(i as int, es@.len() as int)) =~= out@);
}

/// `a` comes before `b`: by number, then by generation.
pub open spec fn ref_lt(a: ObjRef, b: ObjRef) -> bool {
    a.num < b.num || (a.num == b.num && a.gen < b.gen)
}

/// A document: its objects in ascending order of number and generation,
/// and its trailer dictionary.
#[derive(Debug)]
pub struct PdfDoc {
    pub objects: Vec<(ObjRef, PdfValue)>,
    pub trailer: Vec<(Vec<u8>, PdfValue)>,
}

/// The objects are in strictly ascending order (so no id occurs twice).
pub open spec fn objects_sorted(objs: Seq<(ObjRef, PdfValue)>) -> bool {
    forall|i: int, j: int| 0 <= i < j < objs.len() ==> ref_lt(#[trigger] objs[i].0, #[trigger] objs[j].0)
}

pub open spec fn doc_wf(d: PdfDoc) -> bool {
    objects_sorted(d.objects@)
}

/// The position of the object with this id.
pub open spec fn lookup(objs: Seq<(ObjRef, PdfValue)>, r: ObjRef) -> Option<int> {
    if exists|i: int| 0 <= i < objs.len() && #[trigger] objs[i].0 == r {
        Some(choose|i: int| 0 <= i < objs.len() && #[trigger] objs[i].0 == r)
    } else {
        None
    }
}

/// The most references `get_object` follows from an object that is itself
/// a reference.
pub open spec fn deref_limit() -> nat {
    128
}

/// From the object at position `i`, the references followed (`hops` so
/// far) to an object that is not a reference: nothing when one is missing
/// or when more than the limit would be followed.
pub open spec fn deref_from(objs: Seq<(ObjRef, PdfValue)>, i: int, hops: nat) -> Option<int>
    decreases deref_limit() + 1 - hops,
{
    if hops > deref_limit() || !(0 <= i < objs.len()) {
        None
    } else {
        match objs[i].1 {
            PdfValue::Reference(t) => match lookup(objs, t) {
                None => None,
                Some(j) => if hops + 1 > deref_limit() {
                    None
                } else {
                    deref_from(objs, j, hops + 1)
                },
            },
            _ => Some(i),
        }
    }
}

/// The object an id names, with references followed (the position of the
/// final object).
pub open spec fn get_object(objs: Seq<(ObjRef, PdfValue)>, r: ObjRef) -> Option<int> {
    match lookup(objs, r) {
        None => None,
        Some(i) => deref_from(objs, i, 0),
    }
}

/// Binary search for an id among sorted objects.
pub fn find_object(objs: &Vec<(ObjRef, PdfValue)>, r: ObjRef) -> (res: Option<usize>)
    requires
        objects_sorted(objs@),
    ensures
        match res {
            Some(i) => lookup(objs@, r) == Some(i as int) && i < objs@.len(),
            None => lookup(objs@, r) is None,
        },
{
    let mut lo: usize = 0;
    let mut hi: usize = objs.len();
    while lo < hi
        invariant
            objects_sorted(objs@),
            lo <= hi <= objs@.len(),
            forall|k: int| 0 <= k < lo ==> ref_lt(#[trigger] objs@[k].0, r),
            forall|k: int| hi <= k < objs@.len() ==> ref_lt(r, #[trigger] objs@[k].0),
        decreases hi - lo,
    {
        let mid = lo + (hi - lo) / 2;
        let m = objs[mid].0;
        if m.num == r.num && m.gen == r.gen {
            proof {
                assert(objs@[mid as int].0 == r);
                let c = choose|i: int| 0 <= i < objs@.len() && #[trigger] objs@[i].0 == r;
                if c < mid {
                    assert(ref_lt(objs@[c].0, objs@[mid as int].0));
                } else if c > mid {
                    assert(ref_lt(objs@[mid as int].0, objs@[c].0));
                }
            }
            return Some(mid);
        } else if m.num < r.num || (m.num == r.num && m.gen < r.gen) {
            proof {
                assert forall|k: int| 0 <= k < mid + 1 implies ref_lt(#[trigger] objs@[k].0, r) by {
                    if k < mid {
                        assert(ref_lt(objs@[k].0, objs@[mid as int].0));
                    }
                }
            }
            lo = mid + 1;
        } else {
            proof {
                assert forall|k: int| mid <= k < objs@.len() implies ref_lt(r, #[trigger] objs@[k].0) by {
                    if k > mid {
                        assert(ref_lt(objs@[mid as int].0, objs@[k].0));
                    }
                }
            }
            hi = mid;
        }
    }
    proof {
        if exists|i: int| 0 <= i < objs@.len() && #[trigger] objs@[i].0 == r {
            let c = choose|i: int| 0 <= i < objs@.len() && #[trigger] objs@[i].0 == r;
            if c < lo {
                assert(ref_lt(objs@[c].0, r));
            } else {
                assert(ref_lt(r, objs@[c].0));
            }
        }
    }
    None
}

/// `get_object`: the position of the object an id names, references
/// followed.
pub fn resolve_object(objs: &Vec<(ObjRef, PdfValue)>, r: ObjRef) -> (res: Option<usize>)
    requires
        objects_sorted(objs@),
    ensures
        match res {
            Some(i) => get_object(objs@, r) == Some(i as int) && i < objs@.len(),
            None => get_object(objs@, r) is None,
        },
{
    let mut i = match find_object(objs, r) {
        None => {
            return None;
        },
        Some(i) => i,
    };
    let mut hops: usize = 0;
    loop
        invariant
            objects_sorted(objs@),
            i < objs@.len(),
            hops <= deref_limit(),
            get_object(objs@, r) == deref_from(objs@, i as int, hops as nat),
        decreases deref_limit() - hops,
    {
        match &objs[i].1 {
            PdfValue::Reference(t) => {
                match find_object(objs, *t) {
                    None => {
                        return None;
                    },
                    Some(j) => {
                        if hops + 1 > 128 {
                            return None;
                        }
                        i = j;
                        hops = hops + 1;
                    },
                }
            },
            _ => {
                return Some(i);
            },
        }
    }
}

/// The value of the first entry with this key.
pub open spec fn entry_get(es: Seq<(Vec<u8>, PdfValue)>, key: Seq<u8>) -> Option<PdfValue>
    decreases es.len(),
{
    if es.len() == 0 {
        None
    } else if es[0].0@ == key {
        Some(es[0].1)
    } else {
        entry_get(es.drop_first(), key)
    }
}

/// The position of the first entry with this key.
pub fn find_entry(es: &Vec<(Vec<u8>, PdfValue)>, key: &[u8]) -> (r: Option<usize>)
    ensures
        match r {
            Some(j) => j < es@.len() && entry_get(es@, key@) == Some(es@[j as int].1),
            None => entry_get(es@, key@) is None,
        },
{
    let mut i: usize = 0;
    assert(es@.skip(0) =~= es@);
    while i < es.len()
        invariant
            i <= es@.len(),
            entry_get(es@, key@) == entry_get(es@.skip(i as int), key@),
        decreases es.len() - i,
    {
        assert(es@.skip(i as int).drop_first() =~= es@.skip(i + 1));
        if bytes_eq(es[i].0.as_slice(), key) {
            return Some(i);
        }
        i = i + 1;
    }
    None
}

/// Whether two byte strings are equal.
pub fn bytes_eq(a: &[u8], b: &[u8]) -> (r: bool)
    ensures
        r == (a@ == b@),
{
    if a.len() != b.len() {
        return false;
    }
    let mut i: usize = 0;
    while i < a.len()
        invariant
            a@.len() == b@.len(),
            i <= a@.len(),
            forall|j: int| 0 <= j < i ==> a@[j] == b@[j],
        decreases a.len() - i,
    {
        if a[i] != b[i] {
            return false;
        }
        i = i + 1;
    }
    assert(a@ =~= b@);
    true
}

/// The dictionary of a dictionary or a stream.
pub open spec fn dict_of(v: PdfValue) -> Option<Seq<(Vec<u8>, PdfValue)>> {
    match v {
        PdfValue::Dictionary(es) => Some(es@),
        PdfValue::Stream { dict, content } => Some(dict@),
        _ => None,
    }
}

/// A reference value's target.
pub open spec fn as_ref(v: Option<PdfValue>) -> Option<ObjRef> {
    match v {
        Some(PdfValue::Reference(r)) => Some(r),
        _ => None,
    }
}

/// The names among array items, in order.
pub open spec fn name_items(items: Seq<PdfValue>) -> Seq<Seq<u8>>
    decreases items.len(),
{
    if items.len() == 0 {
        Seq::empty()
    } else {
        match items.last() {
            PdfValue::Name(n) => name_items(items.drop_last()).push(n@),
            _ => name_items(items.drop_last()),
        }
    }
}

/// The filters a stream dictionary's `/Filter` names: a name, or the names
/// in an array.
pub open spec fn dict_filter_names(d: Seq<(Vec<u8>, PdfValue)>) -> Seq<Seq<u8>> {
    match entry_get(d, encode_utf8("Filter"@)) {
        Some(PdfValue::Name(n)) => seq![n@],
        Some(PdfValue::Array(items)) => name_items(items@),
        _ => Seq::empty(),
    }
}

/// The stream a dictionary and content make, for decoding.
pub fn pdf_stream_of(dict: &Vec<(Vec<u8>, PdfValue)>, content: &Vec<u8>) -> (r: PdfStream)
    ensures
        spec_filter_names(r.filter) == dict_filter_names(dict@),
        r.content@ == content@,
{
    let filter = match find_entry(dict, "Filter".as_bytes()) {
        None => None,
        Some(j) => match &dict[j].1 {
            PdfValue::Name(n) => Some(FilterEntry::Name(n.clone())),
            PdfValue::Array(items) => {
                let mut a: Vec<Option<Vec<u8>>> = Vec::new();
                let mut i: usize = 0;
                assert(items@.take(0) =~= Seq::<PdfValue>::empty());
                assert(a@ =~= Seq::<Option<Vec<u8>>>::empty());
                while i < items.len()
                    invariant
                        i <= items@.len(),
                        array_names(a@) == name_items(items@.take(i as int)),
                    decreases items.len() - i,
                {
                    assert(items@.take(i + 1).drop_last() =~= items@.take(i as int));
                    assert(items@.take(i + 1).last() == items@[i as int]);
                    let ghost before = a@;
                    match &items[i] {
                        PdfValue::Name(n) => {
                            a.push(Some(n.clone()));
                        },
                        _ => {
                            a.push(None);
                        },
                    }
                    assert(a@.drop_last() =~= before);
                    i = i + 1;
                }
                assert(items@.take(items@.len() as int) =~= items@);
                Some(FilterEntry::Array(a))
            },
            _ => Some(FilterEntry::Other),
        },
    };
    PdfStream { filter, content: content.clone() }
}

/// In sorted objects, an object's own id finds it.
pub proof fn lemma_lookup_own(objs: Seq<(ObjRef, PdfValue)>, k: int)
    requires
        objects_sorted(objs),
        0 <= k < objs.len(),
    ensures
        lookup(objs, objs[k].0) == Some(k),
{
    let r = objs[k].0;
    assert(objs[k].0 == r);
    let c = choose|i: int| 0 <= i < objs.len() && #[trigger] objs[i].0 == r;
    if c < k {
        assert(ref_lt(objs[c].0, objs[k].0));
    } else if c > k {
        assert(ref_lt(objs[k].0, objs[c].0));
    }
}

/// A found position holds the id looked up.
pub proof fn lemma_lookup_found(objs: Seq<(ObjRef, PdfValue)>, r: ObjRef)
    ensures
        lookup(objs, r) matches Some(i) ==> 0 <= i < objs.len() && objs[i].0 == r,
{
}

/// Distinct positions below `n` number at most `n`.
pub proof fn lemma_distinct_below(s: Seq<usize>, n: usize)
    requires
        s.no_duplicates(),
        forall|i: int| 0 <= i < s.len() ==> #[trigger] s[i] < n,
    ensures
        s.len() <= n,
{
    let t = s.map_values(|x: usize| x as int);
    assert(t.no_duplicates()) by {
        assert forall|i: int, j: int| 0 <= i < t.len() && 0 <= j < t.len() && i != j implies t[i] != t[j] by {
            assert(s[i] != s[j]);
        }
    }
    t.unique_seq_to_set();
    vstd::set_lib::lemma_int_range(0, n as int);
    assert(t.to_set().subset_of(vstd::set_lib::set_int_range(0, n as int))) by {
        assert forall|x: int| t.to_set().contains(x) implies vstd::set_lib::set_int_range(0, n as int).contains(x) by {
            let i = choose|i: int| 0 <= i < t.len() && t[i] == x;
            assert(s[i] < n);
        }
    }
    vstd::set_lib::lemma_len_subset(t.to_set(), vstd::set_lib::set_int_range(0, n as int));
}

} // verus!
