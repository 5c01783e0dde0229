//! Vectors without repeated elements, used as finite sets.
use vstd::prelude::*;
use crate::model::Transition;

verus! {

pub fn has_state(v: &Vec<i64>, x: i64) -> (r: bool)
    ensures
        r == v@.contains(x),
{
    let mut i: usize = 0;
    while i < v.len()
        invariant
            i <= v.len(),
            forall|j: int| 0 <= j < i ==> v@[j] != x,
        decreases v.len() - i,
    {
        if v[i] == x {
            return true;
        }
        i += 1;
    }
    false
}

pub fn has_symbol(v: &Vec<char>, x: char) -> (r: bool)
    ensures
        r == v@.contains(x),
{
    let mut i: usize = 0;
    while i < v.len()
        invariant
            i <= v.len(),
            forall|j: int| 0 <= j < i ==> v@[j] != x,
        decreases v.len() - i,
    {
        if v[i] == x {
            return true;
        }
        i += 1;
    }
    false
}

pub fn has_transition(v: &Vec<Transition>, x: Transition) -> (r: bool)
    ensures
        r == v@.contains(x),
{
    let mut i: usize = 0;
    while i < v.len()
        invariant
            i <= v.len(),
            forall|j: int| 0 <= j < i ==> v@[j] != x,
        decreases v.len() - i,
    {
        let t = v[i];
        if t.0 == x.0 && t.1 == x.1 && t.2 == x.2 {
            return true;
        }
        i += 1;
    }
    false
}

/// Adds `x` unless it is there already.
pub fn insert_state(v: &mut Vec<i64>, x: i64)
    requires
        old(v)@.no_duplicates(),
    ensures
        final(v)@.no_duplicates(),
        final(v)@.to_set() == old(v)@.to_set().insert(x),
{
    if !has_state(v, x) {
        v.push(x);
        assert forall|y| #[trigger] v@.contains(y) <==> old(v)@.contains(y) || y == x by {
            if old(v)@.contains(y) {
                let j = choose|j: int| 0 <= j < old(v)@.len() && old(v)@[j] == y;
                assert(v@[j] == y);
            }
            if y == x {
                assert(v@[v@.len() - 1] == x);
            }
        }
    }
    assert(v@.to_set() =~= old(v)@.to_set().insert(x));
}

/// Adds `x` unless it is there already.
pub fn insert_transition(v: &mut Vec<Transition>, x: Transition)
    requires
        old(v)@.no_duplicates(),
    ensures
        final(v)@.no_duplicates(),
        final(v)@.to_set() == old(v)@.to_set().insert(x),
{
    if !has_transition(v, x) {
        v.push(x);
        assert forall|y| #[trigger] v@.contains(y) <==> old(v)@.contains(y) || y == x by {
            if old(v)@.contains(y) {
                let j = choose|j: int| 0 <= j < old(v)@.len() && old(v)@[j] == y;
                assert(v@[j] == y);
            }
            if y == x {
                assert(v@[v@.len() - 1] == x);
            }
        }
    }
    assert(v@.to_set() =~= old(v)@.to_set().insert(x));
}

/// The elements of `v` that `keep` holds, in their order.
pub fn intersect(v: &Vec<i64>, keep: &Vec<i64>) -> (r: Vec<i64>)
    requires
        v@.no_duplicates(),
    ensures
        r@.no_duplicates(),
        r@.to_set() == v@.to_set().intersect(keep@.to_set()),
{
    let mut r: Vec<i64> = Vec::new();
    let mut i: usize = 0;
    while i < v.len()
        invariant
            i <= v.len(),
            v@.no_duplicates(),
            r@.no_duplicates(),
            forall|y: i64| #[trigger] r@.contains(y) ==> exists|j: int| 0 <= j < i && v@[j] == y,
            forall|j: int| 0 <= j < i ==> (#[trigger] r@.contains(v@[j]) <==> keep@.contains(v@[j])),
        decreases v.len() - i,
    {
        let x = v[i];
        if has_state(keep, x) {
            proof {
                lemma_push_contains(r@, x);
                assert(!r@.contains(x));
            }
            r.push(x);
        }
        i += 1;
    }
    assert(r@.to_set() =~= v@.to_set().intersect(keep@.to_set()));
    r
}

/// The elements of `v` that `drop` does not hold, in their order.
pub fn difference(v: &Vec<i64>, drop: &Vec<i64>) -> (r: Vec<i64>)
    requires
        v@.no_duplicates(),
    ensures
        r@.no_duplicates(),
        r@.to_set() == v@.to_set().difference(drop@.to_set()),
{
    let mut r: Vec<i64> = Vec::new();
    let mut i: usize = 0;
    while i < v.len()
        invariant
            i <= v.len(),
            v@.no_duplicates(),
            r@.no_duplicates(),
            forall|y: i64| #[trigger] r@.contains(y) ==> exists|j: int| 0 <= j < i && v@[j] == y,
            forall|j: int| 0 <= j < i ==> (#[trigger] r@.contains(v@[j]) <==> !drop@.contains(v@[j])),
        decreases v.len() - i,
    {
        let x = v[i];
        if !has_state(drop, x) {
            proof {
                lemma_push_contains(r@, x);
                assert(!r@.contains(x));
            }
            r.push(x);
        }
        i += 1;
    }
    assert(r@.to_set() =~= v@.to_set().difference(drop@.to_set()));
    r
}

/// The elements of `v` other than `x`, in their order.
pub fn remove_value(v: &Vec<i64>, x: i64) -> (r: Vec<i64>)
    requires
        v@.no_duplicates(),
    ensures
        r@.no_duplicates(),
        r@.to_set() == v@.to_set().remove(x),
{
    let mut r: Vec<i64> = Vec::new();
    let mut i: usize = 0;
    while i < v.len()
        invariant
            i <= v.len(),
            v@.no_duplicates(),
            r@.no_duplicates(),
            forall|y: i64| #[trigger] r@.contains(y) ==> exists|j: int| 0 <= j < i && v@[j] == y,
            forall|j: int| 0 <= j < i ==> (#[trigger] r@.contains(v@[j]) <==> v@[j] != x),
        decreases v.len() - i,
    {
        let y = v[i];
        if y != x {
            proof {
                lemma_push_contains(r@, y);
                assert(!r@.contains(y));
            }
            r.push(y);
        }
        i += 1;
    }
    assert(r@.to_set() =~= v@.to_set().remove(x));
    r
}

/// The transitions of `v` whose label is not `c`, in their order.
pub fn drop_label(v: &Vec<Transition>, c: char) -> (r: Vec<Transition>)
    requires
        v@.no_duplicates(),
    ensures
        r@.no_duplicates(),
        forall|t: Transition| #[trigger] r@.contains(t) <==> v@.contains(t) && t.1 != c,
{
    let mut r: Vec<Transition> = Vec::new();
    let mut i: usize = 0;
    while i < v.len()
        invariant
            i <= v.len(),
            v@.no_duplicates(),
            r@.no_duplicates(),
            forall|y: Transition| #[trigger] r@.contains(y) ==> exists|j: int| 0 <= j < i && v@[j] == y,
            forall|j: int| 0 <= j < i ==> (#[trigger] r@.contains(v@[j]) <==> v@[j].1 != c),
        decreases v.len() - i,
    {
        let t = v[i];
        if t.1 != c {
            proof {
                lemma_push_contains(r@, t);
                assert(!r@.contains(t));
            }
            r.push(t);
        }
        i += 1;
    }
    assert forall|t: Transition| #[trigger] r@.contains(t) <==> v@.contains(t) && t.1 != c by {
        if v@.contains(t) {
            let j = choose|j: int| 0 <= j < v@.len() && v@[j] == t;
            assert(r@.contains(v@[j]) <==> v@[j].1 != c);
        }
    }
    r
}

/// The transitions of `v` whose two ends `keep` holds, in their order.
pub fn within(v: &Vec<Transition>, keep: &Vec<i64>) -> (r: Vec<Transition>)
    requires
        v@.no_duplicates(),
    ensures
        r@.no_duplicates(),
        forall|t: Transition| #[trigger] r@.contains(t) <==> v@.contains(t) && keep@.contains(t.0) && keep@.contains(t.2),
{
    let mut r: Vec<Transition> = Vec::new();
    let mut i: usize = 0;
    while i < v.len()
        invariant
            i <= v.len(),
            v@.no_duplicates(),
            r@.no_duplicates(),
            forall|y: Transition| #[trigger] r@.contains(y) ==> exists|j: int| 0 <= j < i && v@[j] == y,
            forall|j: int| 0 <= j < i ==> (#[trigger] r@.contains(v@[j]) <==> keep@.contains(v@[j].0) && keep@.contains(v@[j].2)),
        decreases v.len() - i,
    {
        let t = v[i];
        if has_state(keep, t.0) && has_state(keep, t.2) {
            proof {
                lemma_push_contains(r@, t);
                assert(!r@.contains(t));
            }
            r.push(t);
        }
        i += 1;
    }
    assert forall|t: Transition| #[trigger] r@.contains(t) <==> v@.contains(t) && keep@.contains(t.0) && keep@.contains(t.2) by {
        if v@.contains(t) {
            let j = choose|j: int| 0 <= j < v@.len() && v@[j] == t;
            assert(r@.contains(v@[j]) <==> keep@.contains(v@[j].0) && keep@.contains(v@[j].2));
        }
    }
    r
}

/// The transitions of `v` other than `x`, in their order.
pub fn drop_transition(v: &Vec<Transition>, x: Transition) -> (r: Vec<Transition>)
    requires
        v@.no_duplicates(),
    ensures
        r@.no_duplicates(),
        forall|t: Transition| #[trigger] r@.contains(t) <==> v@.contains(t) && t != x,
{
    let mut r: Vec<Transition> = Vec::new();
    let mut i: usize = 0;
    while i < v.len()
        invariant
            i <= v.len(),
            v@.no_duplicates(),
            r@.no_duplicates(),
            forall|y: Transition| #[trigger] r@.contains(y) ==> exists|j: int| 0 <= j < i && v@[j] == y,
            forall|j: int| 0 <= j < i ==> (#[trigger] r@.contains(v@[j]) <==> v@[j] != x),
        decreases v.len() - i,
    {
        let t = v[i];
        if !(t.0 == x.0 && t.1 == x.1 && t.2 == x.2) {
            proof {
                lemma_push_contains(r@, t);
                assert(!r@.contains(t));
            }
            r.push(t);
        }
        i += 1;
    }
    assert forall|t: Transition| #[trigger] r@.contains(t) <==> v@.contains(t) && t != x by {
        if v@.contains(t) {
            let j = choose|j: int| 0 <= j < v@.len() && v@[j] == t;
            assert(r@.contains(v@[j]) <==> v@[j] != x);
        }
    }
    r
}

/// A copy of `v`.
pub fn copy_states(v: &Vec<i64>) -> (r: Vec<i64>)
    ensures
        r@ == v@,
{
    let mut r: Vec<i64> = Vec::new();
    let mut i: usize = 0;
    while i < v.len()
        invariant
            i <= v.len(),
            r@ == v@.subrange(0, i as int),
        decreases v.len() - i,
    {
        r.push(v[i]);
        i += 1;
    }
    assert(r@ =~= v@);
    r
}

/// A copy of `v`.
pub fn copy_symbols(v: &Vec<char>) -> (r: Vec<char>)
    ensures
        r@ == v@,
{
    let mut r: Vec<char> = Vec::new();
    let mut i: usize = 0;
    while i < v.len()
        invariant
            i <= v.len(),
            r@ == v@.subrange(0, i as int),
        decreases v.len() - i,
    {
        r.push(v[i]);
        i += 1;
    }
    assert(r@ =~= v@);
    r
}

/// A copy of `v`.
pub fn copy_transitions(v: &Vec<Transition>) -> (r: Vec<Transition>)
    ensures
        r@ == v@,
{
    let mut r: Vec<Transition> = Vec::new();
    let mut i: usize = 0;
    while i < v.len()
        invariant
            i <= v.len(),
            r@ == v@.subrange(0, i as int),
        decreases v.len() - i,
    {
        r.push(v[i]);
        i += 1;
    }
    assert(r@ =~= v@);
    r
}

/// True iff `a` and `b` hold the same elements.
pub fn same_set(a: &Vec<i64>, b: &Vec<i64>) -> (r: bool)
    ensures
        r == (a@.to_set() == b@.to_set()),
{
    let mut i: usize = 0;
    while i < a.len()
        invariant
            i <= a.len(),
            forall|k: int| 0 <= k < i ==> b@.contains(#[trigger] a@[k]),
        decreases a.len() - i,
    {
        if !has_state(b, a[i]) {
            assert(a@.to_set().contains(a@[i as int]));
            return false;
        }
        i += 1;
    }
    let mut j: usize = 0;
    while j < b.len()
        invariant
            j <= b.len(),
            forall|k: int| 0 <= k < a.len() ==> b@.contains(#[trigger] a@[k]),
            forall|k: int| 0 <= k < j ==> a@.contains(#[trigger] b@[k]),
        decreases b.len() - j,
    {
        if !has_state(a, b[j]) {
            assert(b@.to_set().contains(b@[j as int]));
            return false;
        }
        j += 1;
    }
    assert forall|x: i64| #[trigger] a@.to_set().contains(x) <==> b@.to_set().contains(x) by {
        if a@.contains(x) {
            let k = choose|k: int| 0 <= k < a@.len() && a@[k] == x;
            assert(b@.contains(a@[k]));
        }
        if b@.contains(x) {
            let k = choose|k: int| 0 <= k < b@.len() && b@[k] == x;
            assert(a@.contains(b@[k]));
        }
    }
    assert(a@.to_set() =~= b@.to_set());
    true
}

/// The position in `family` of a vector with the elements of `v`, if any.
pub fn find_set(family: &Vec<Vec<i64>>, v: &Vec<i64>) -> (r: Option<usize>)
    ensures
        match r {
            Some(k) => k < family@.len() && family@[k as int]@.to_set() == v@.to_set(),
            None => forall|k: int| 0 <= k < family@.len() ==> #[trigger] family@[k]@.to_set() != v@.to_set(),
        },
{
    let mut k: usize = 0;
    while k < family.len()
        invariant
            k <= family.len(),
            forall|kk: int| 0 <= kk < k ==> #[trigger] family@[kk]@.to_set() != v@.to_set(),
        decreases family.len() - k,
    {
        if same_set(&family[k], v) {
            return Some(k);
        }
        k += 1;
    }
    None
}

/// What a vector holds after a push.
pub proof fn lemma_push_contains<A>(s: Seq<A>, a: A)
    ensures
        forall|y: A| #[trigger] s.push(a).contains(y) <==> s.contains(y) || y == a,
        !s.contains(a) && s.no_duplicates() ==> s.push(a).no_duplicates(),
{
    assert forall|y: A| #[trigger] s.push(a).contains(y) <==> s.contains(y) || y == a by {
        if s.contains(y) {
            let j = choose|j: int| 0 <= j < s.len() && s[j] == y;
            assert(s.push(a)[j] == y);
        }
        if y == a {
            assert(s.push(a)[s.len() as int] == a);
        }
        if s.push(a).contains(y) {
            let j = choose|j: int| 0 <= j < s.len() + 1 && s.push(a)[j] == y;
            if j < s.len() {
                assert(s[j] == y);
            }
        }
    }
}

/// A prefix one element longer holds that element more.
pub proof fn lemma_prefix_contains<A>(s: Seq<A>, i: int)
    requires
        0 <= i < s.len(),
    ensures
        forall|x: A| #[trigger] s.subrange(0, i + 1).contains(x) <==> s.subrange(0, i).contains(x) || x == s[i],
{
    assert(s.subrange(0, i + 1) =~= s.subrange(0, i).push(s[i]));
    lemma_push_contains(s.subrange(0, i), s[i]);
}

/// The number of elements of a vector without repeated elements is the size of its set.
pub proof fn lemma_len<A>(s: Seq<A>)
    requires
        s.no_duplicates(),
    ensures
        s.to_set().len() == s.len(),
        s.to_set().finite(),
{
    s.unique_seq_to_set();
    vstd::seq_lib::seq_to_set_is_finite(s);
}

} // verus!
