//! Tallies of text keys, kept in ascending order of the keys (the order of
//! a sorted map keyed by strings).
use vstd::prelude::*;

verus! {

/// `a` sorts before `b`: compared character by character, a proper prefix
/// first. (On UTF-8 text this is also the order of the bytes.)
pub open spec fn str_lt(a: Seq<char>, b: Seq<char>) -> bool
    decreases a.len(),
{
    if b.len() == 0 {
        false
    } else if a.len() == 0 {
        true
    } else if a[0] != b[0] {
        (a[0] as int) < (b[0] as int)
    } else {
        str_lt(a.drop_first(), b.drop_first())
    }
}

pub proof fn lemma_str_lt_irreflexive(a: Seq<char>)
    ensures
        !str_lt(a, a),
    decreases a.len(),
{
    if a.len() > 0 {
        lemma_str_lt_irreflexive(a.drop_first());
    }
}

pub proof fn lemma_str_lt_transitive(a: Seq<char>, b: Seq<char>, c: Seq<char>)
    requires
        str_lt(a, b),
        str_lt(b, c),
    ensures
        str_lt(a, c),
    decreases a.len(),
{
    if a.len() > 0 && b.len() > 0 && c.len() > 0 && a[0] == b[0] && b[0] == c[0] {
        lemma_str_lt_transitive(a.drop_first(), b.drop_first(), c.drop_first());
    }
}

pub proof fn lemma_str_lt_total(a: Seq<char>, b: Seq<char>)
    ensures
        a == b || str_lt(a, b) || str_lt(b, a),
    decreases a.len(),
{
    if a.len() > 0 && b.len() > 0 && a[0] == b[0] {
        lemma_str_lt_total(a.drop_first(), b.drop_first());
        if a.drop_first() == b.drop_first() {
            assert(a =~= seq![a[0]] + a.drop_first());
            assert(b =~= seq![b[0]] + b.drop_first());
        }
    } else if a.len() == 0 && b.len() == 0 {
        assert(a =~= b);
    }
}

pub proof fn lemma_str_lt_asymmetric(a: Seq<char>, b: Seq<char>)
    requires
        str_lt(a, b),
    ensures
        !str_lt(b, a),
{
    if str_lt(b, a) {
        lemma_str_lt_transitive(a, b, a);
        lemma_str_lt_irreflexive(a);
    }
}

/// Whether `a` sorts before `b`.
pub fn text_lt(a: &str, b: &str) -> (r: bool)
    ensures
        r == str_lt(a@, b@),
{
    let n = a.unicode_len();
    let m = b.unicode_len();
    let mut i: usize = 0;
    assert(a@.skip(0) =~= a@);
    assert(b@.skip(0) =~= b@);
    while i < n && i < m
        invariant
            n == a@.len(),
            m == b@.len(),
            i <= n,
            i <= m,
            str_lt(a@, b@) == str_lt(a@.skip(i as int), b@.skip(i as int)),
        decreases n - i,
    {
        let x = a.get_char(i);
        let y = b.get_char(i);
        assert(a@.skip(i as int)[0] == x);
        assert(b@.skip(i as int)[0] == y);
        if x != y {
            return (x as u32) < (y as u32);
        }
        assert(a@.skip(i as int).drop_first() =~= a@.skip(i + 1));
        assert(b@.skip(i as int).drop_first() =~= b@.skip(i + 1));
        i = i + 1;
    }
    i < m
}

/// A tally: keys with their counts.
pub type Tally = Seq<(Seq<char>, nat)>;

/// Counting one more `k`: its count goes up, or it is inserted in order.
pub open spec fn tally_add(t: Tally, k: Seq<char>) -> Tally
    decreases t.len(),
{
    if t.len() == 0 {
        seq![(k, 1nat)]
    } else if t[0].0 == k {
        t.update(0, (k, t[0].1 + 1))
    } else if str_lt(k, t[0].0) {
        seq![(k, 1nat)] + t
    } else {
        seq![t[0]] + tally_add(t.drop_first(), k)
    }
}

/// The tally of a sequence of keys.
pub open spec fn tally_of(keys: Seq<Seq<char>>) -> Tally
    decreases keys.len(),
{
    if keys.len() == 0 {
        Seq::empty()
    } else {
        tally_add(tally_of(keys.drop_last()), keys.last())
    }
}

/// How many times `k` occurs.
pub open spec fn occurrences(keys: Seq<Seq<char>>, k: Seq<char>) -> nat
    decreases keys.len(),
{
    if keys.len() == 0 {
        0
    } else {
        occurrences(keys.drop_last(), k) + if keys.last() == k {
            1nat
        } else {
            0nat
        }
    }
}

/// The keys are in strictly ascending order.
pub open spec fn tally_sorted(t: Tally) -> bool {
    forall|i: int, j: int| 0 <= i < j < t.len() ==> str_lt(#[trigger] t[i].0, #[trigger] t[j].0)
}

/// Where `k` is, or none.
pub open spec fn tally_count(t: Tally, k: Seq<char>) -> nat
    decreases t.len(),
{
    if t.len() == 0 {
        0
    } else {
        (if t[0].0 == k {
            t[0].1
        } else {
            0nat
        }) + tally_count(t.drop_first(), k)
    }
}

proof fn lemma_tally_add(t: Tally, k: Seq<char>)
    requires
        tally_sorted(t),
    ensures
        tally_sorted(tally_add(t, k)),
        forall|x: Seq<char>| #[trigger] tally_count(tally_add(t, k), x) == tally_count(t, x) + if x == k {
            1nat
        } else {
            0nat
        },
        forall|i: int| 0 <= i < tally_add(t, k).len() ==> (#[trigger] tally_add(t, k)[i]).1 > 0 || (exists|j: int|
            0 <= j < t.len() && t[j] == tally_add(t, k)[i]),
    decreases t.len(),
{
    let r = tally_add(t, k);
    if t.len() == 0 {
        assert forall|x: Seq<char>| #[trigger] tally_count(r, x) == tally_count(t, x) + if x == k {
            1nat
        } else {
            0nat
        } by {
            assert(r.drop_first().len() == 0);
            assert(tally_count(r.drop_first(), x) == 0);
            assert(tally_count(t, x) == 0);
        }
    } else if t[0].0 == k {
        assert(r.drop_first() =~= t.drop_first());
        assert forall|i: int, j: int| 0 <= i < j < r.len() implies str_lt(#[trigger] r[i].0, #[trigger] r[j].0) by {
            assert(r[i].0 == t[i].0);
            assert(r[j].0 == t[j].0);
        }
        assert forall|x: Seq<char>| #[trigger] tally_count(r, x) == tally_count(t, x) + if x == k {
            1nat
        } else {
            0nat
        } by {
            assert(tally_count(r, x) == (if r[0].0 == x {
                r[0].1
            } else {
                0nat
            }) + tally_count(r.drop_first(), x));
            assert(tally_count(t, x) == (if t[0].0 == x {
                t[0].1
            } else {
                0nat
            }) + tally_count(t.drop_first(), x));
        }
    } else if str_lt(k, t[0].0) {
        assert(r.drop_first() =~= t);
        assert forall|i: int, j: int| 0 <= i < j < r.len() implies str_lt(#[trigger] r[i].0, #[trigger] r[j].0) by {
            if i == 0 {
                if j > 1 {
                    assert(str_lt(t[0].0, t[j - 1].0));
                    lemma_str_lt_transitive(k, t[0].0, t[j - 1].0);
                }
            } else {
                assert(r[i] == t[i - 1]);
                assert(r[j] == t[j - 1]);
            }
        }
        assert forall|x: Seq<char>| #[trigger] tally_count(r, x) == tally_count(t, x) + if x == k {
            1nat
        } else {
            0nat
        } by {
            if x == k {
                lemma_count_absent(t, k);
            }
        }
    } else {
        let rest = t.drop_first();
        assert(tally_sorted(rest)) by {
            assert forall|i: int, j: int| 0 <= i < j < rest.len() implies str_lt(#[trigger] rest[i].0, #[trigger] rest[j].0) by {
                assert(rest[i] == t[i + 1]);
                assert(rest[j] == t[j + 1]);
            }
        }
        lemma_tally_add(rest, k);
        let r2 = tally_add(rest, k);
        assert(r.drop_first() =~= r2);
        assert(r[0] == t[0]);
        lemma_str_lt_total(k, t[0].0);
        assert(str_lt(t[0].0, k));
        assert forall|i: int, j: int| 0 <= i < j < r.len() implies str_lt(#[trigger] r[i].0, #[trigger] r[j].0) by {
            if i == 0 {
                assert(r[j] == r2[j - 1]);
                lemma_tally_add_keys(rest, k, j - 1);
                if r2[j - 1].0 != k {
                    let w = choose|w: int| 0 <= w < rest.len() && rest[w].0 == r2[j - 1].0;
                    assert(rest[w] == t[w + 1]);
                }
            } else {
                assert(r[i] == r2[i - 1]);
                assert(r[j] == r2[j - 1]);
            }
        }
        assert forall|x: Seq<char>| #[trigger] tally_count(r, x) == tally_count(t, x) + if x == k {
            1nat
        } else {
            0nat
        } by {
            assert(tally_count(r2, x) == tally_count(rest, x) + if x == k {
                1nat
            } else {
                0nat
            });
            assert(tally_count(r, x) == (if r[0].0 == x {
                r[0].1
            } else {
                0nat
            }) + tally_count(r.drop_first(), x));
            assert(tally_count(t, x) == (if t[0].0 == x {
                t[0].1
            } else {
                0nat
            }) + tally_count(rest, x));
        }
        assert forall|i: int| 0 <= i < r.len() implies (#[trigger] r[i]).1 > 0 || (exists|j: int|
            0 <= j < t.len() && t[j] == r[i]) by {
            if i == 0 {
                assert(t[0] == r[0]);
            } else {
                assert(r[i] == r2[i - 1]);
                if !(r2[i - 1].1 > 0) {
                    let j = choose|j: int| 0 <= j < rest.len() && rest[j] == r2[i - 1];
                    assert(t[j + 1] == r[i]);
                }
            }
        }
    }
}

/// Each key of `tally_add(t, k)` is `k` or a key of `t`.
proof fn lemma_tally_add_keys(t: Tally, k: Seq<char>, i: int)
    requires
        0 <= i < tally_add(t, k).len(),
    ensures
        tally_add(t, k)[i].0 == k || exists|w: int| 0 <= w < t.len() && t[w].0 == tally_add(t, k)[i].0,
    decreases t.len(),
{
    let r = tally_add(t, k);
    if t.len() == 0 {
    } else if t[0].0 == k {
        if i > 0 {
            assert(r[i] == t[i]);
        }
    } else if str_lt(k, t[0].0) {
        if i > 0 {
            assert(r[i] == t[i - 1]);
        }
    } else {
        if i == 0 {
            assert(r[0] == t[0]);
        } else {
            let rest = t.drop_first();
            lemma_tally_add_keys(rest, k, i - 1);
            assert(r[i] == tally_add(rest, k)[i - 1]);
            if tally_add(rest, k)[i - 1].0 != k {
                let w = choose|w: int| 0 <= w < rest.len() && rest[w].0 == tally_add(rest, k)[i - 1].0;
                assert(t[w + 1] == rest[w]);
            }
        }
    }
}

/// In a sorted tally whose first key is after `k`, `k` has no count.
proof fn lemma_count_absent(t: Tally, k: Seq<char>)
    requires
        tally_sorted(t),
        t.len() > 0,
        str_lt(k, t[0].0),
    ensures
        tally_count(t, k) == 0,
    decreases t.len(),
{
    lemma_str_lt_irreflexive(k);
    let rest = t.drop_first();
    if rest.len() == 0 {
        assert(tally_count(rest, k) == 0);
    } else {
        assert(str_lt(t[0].0, t[1].0));
        lemma_str_lt_transitive(k, t[0].0, t[1].0);
        assert(tally_sorted(rest)) by {
            assert forall|i: int, j: int| 0 <= i < j < rest.len() implies str_lt(#[trigger] rest[i].0, #[trigger] rest[j].0) by {
                assert(rest[i] == t[i + 1]);
                assert(rest[j] == t[j + 1]);
            }
        }
        lemma_count_absent(rest, k);
    }
}

/// A tally is sorted by key, and counts each key as often as it occurs.
pub proof fn law_tally_counts(keys: Seq<Seq<char>>)
    ensures
        tally_sorted(tally_of(keys)),
        forall|x: Seq<char>| #[trigger] tally_count(tally_of(keys), x) == occurrences(keys, x),
    decreases keys.len(),
{
    if keys.len() > 0 {
        law_tally_counts(keys.drop_last());
        lemma_tally_add(tally_of(keys.drop_last()), keys.last());
    }
}

pub open spec fn tally_views(v: Seq<(String, usize)>) -> Tally {
    v.map_values(|e: (String, usize)| (e.0@, e.1 as nat))
}

pub open spec fn tally_total(t: Tally) -> nat
    decreases t.len(),
{
    if t.len() == 0 {
        0
    } else {
        t[0].1 + tally_total(t.drop_first())
    }
}

proof fn lemma_tally_add_total(t: Tally, k: Seq<char>)
    ensures
        tally_total(tally_add(t, k)) == tally_total(t) + 1,
    decreases t.len(),
{
    let r = tally_add(t, k);
    if t.len() == 0 {
        assert(r.drop_first().len() == 0);
        assert(tally_total(r.drop_first()) == 0);
    } else if t[0].0 == k {
        assert(r.drop_first() =~= t.drop_first());
    } else if str_lt(k, t[0].0) {
        assert(r.drop_first() =~= t);
    } else {
        lemma_tally_add_total(t.drop_first(), k);
        assert(r.drop_first() =~= tally_add(t.drop_first(), k));
    }
}

proof fn lemma_count_le_total(t: Tally, i: int)
    requires
        0 <= i < t.len(),
    ensures
        t[i].1 <= tally_total(t),
    decreases t.len(),
{
    if i > 0 {
        lemma_count_le_total(t.drop_first(), i - 1);
        assert(t.drop_first()[i - 1] == t[i]);
    }
}

/// `tally_add(t, k)` splits at the first key not before `k`.
proof fn lemma_tally_add_at(t: Tally, k: Seq<char>, p: int)
    requires
        0 <= p <= t.len(),
        forall|i: int| 0 <= i < p ==> str_lt(#[trigger] t[i].0, k),
    ensures
        tally_add(t, k) == t.take(p) + tally_add(t.skip(p), k),
    decreases p,
{
    if p > 0 {
        lemma_str_lt_asymmetric(t[0].0, k);
        lemma_str_lt_irreflexive(k);
        let rest = t.drop_first();
        assert forall|i: int| 0 <= i < p - 1 implies str_lt(#[trigger] rest[i].0, k) by {
            assert(rest[i] == t[i + 1]);
        }
        lemma_tally_add_at(rest, k, p - 1);
        assert(rest.skip(p - 1) =~= t.skip(p));
        assert(t.take(p) =~= seq![t[0]] + rest.take(p - 1));
        assert(tally_add(t, k) == seq![t[0]] + tally_add(rest, k));
    } else {
        assert(t.skip(0) =~= t);
        assert(t.take(0) + tally_add(t.skip(0), k) =~= tally_add(t, k));
    }
}

/// Counts one more key.
pub fn tally_push(t: &mut Vec<(String, usize)>, k: String)
    requires
        tally_total(tally_views(old(t)@)) < usize::MAX,
    ensures
        tally_views(final(t)@) == tally_add(tally_views(old(t)@), k@),
        tally_total(tally_views(final(t)@)) == tally_total(tally_views(old(t)@)) + 1,
{
    let ghost tv = tally_views(t@);
    let mut p: usize = 0;
    while p < t.len()
        invariant
            p <= t@.len(),
            tv == tally_views(t@),
            tally_total(tv) < usize::MAX,
            forall|i: int| 0 <= i < p ==> str_lt(#[trigger] tv[i].0, k@),
        ensures
            p <= t@.len(),
            tv == tally_views(t@),
            forall|i: int| 0 <= i < p ==> str_lt(#[trigger] tv[i].0, k@),
            p < t@.len() ==> !str_lt(tv[p as int].0, k@),
        decreases t.len() - p,
    {
        if !text_lt(t[p].0.as_str(), k.as_str()) {
            break;
        }
        p = p + 1;
    }
    proof {
        lemma_tally_add_at(tv, k@, p as int);
        lemma_tally_add_total(tv, k@);
    }
    if p < t.len() && crate::textbuf::str_eq(t[p].0.as_str(), k.as_str()) {
        proof {
            lemma_count_le_total(tv, p as int);
        }
        let c = t[p].1;
        let key = t[p].0.clone();
        t.set(p, (key, c + 1));
        proof {
            let rest = tv.skip(p as int);
            assert(rest[0] == tv[p as int]);
            assert(rest[0].0 == k@);
            assert(tally_add(rest, k@) == rest.update(0, (k@, rest[0].1 + 1)));
            assert(tally_views(t@) =~= tv.take(p as int) + tally_add(rest, k@));
        }
    } else {
        proof {
            let rest = tv.skip(p as int);
            if p < t@.len() {
                assert(rest[0] == tv[p as int]);
                lemma_str_lt_total(tv[p as int].0, k@);
            }
        }
        let ghost kv = k@;
        t.insert(p, (k, 1));
        proof {
            let rest = tv.skip(p as int);
            if rest.len() > 0 {
                assert(rest[0].0 != kv);
                assert(str_lt(kv, rest[0].0));
            }
            assert(tally_add(rest, kv) == seq![(kv, 1nat)] + rest);
            assert(tally_views(t@) =~= tv.take(p as int) + tally_add(rest, kv));
        }
    }
}

/// The tally of a list of keys: each distinct key once, in ascending
/// order, with how many times it occurs.
pub fn tally_keys(keys: &Vec<String>) -> (r: Vec<(String, usize)>)
    ensures
        tally_views(r@) == tally_of(keys@.map_values(|s: String| s@)),
{
    let ghost ks = keys@.map_values(|s: String| s@);
    let mut t: Vec<(String, usize)> = Vec::new();
    let mut i: usize = 0;
    assert(tally_views(t@) =~= tally_of(ks.take(0)));
    while i < keys.len()
        invariant
            i <= keys@.len(),
            ks == keys@.map_values(|s: String| s@),
            tally_views(t@) == tally_of(ks.take(i as int)),
            tally_total(tally_views(t@)) == i,
        decreases keys.len() - i,
    {
        assert(ks.take(i + 1).drop_last() =~= ks.take(i as int));
        tally_push(&mut t, keys[i].clone());
        i = i + 1;
    }
    assert(ks.take(keys@.len() as int) =~= ks);
    t
}

} // verus!
