//! Mathematical definitions the contracts of the library are stated with.
use vstd::prelude::*;
use vstd::arithmetic::power2::pow2;

verus! {

/// The label of a transition that consumes no input.
pub const EPSILON: char = '\0';

/// A transition: origin state, label, destination state.
pub type Transition = (i64, char, i64);

/// A symbol of an alphabet: a printable, non-whitespace ASCII character.
pub open spec fn is_symbol(c: char) -> bool {
    33 <= c as u32 && c as u32 <= 126
}

/// Which edges a reachability computation follows.
#[derive(Clone, Copy, PartialEq, Eq, Structural)]
pub enum Edges {
    /// Epsilon transitions, in their own direction.
    Epsilon,
    /// Every transition, in its own direction.
    Forward,
    /// Every transition, against its direction.
    Backward,
}

/// The transition `t` is an edge of kind `mode` from `p` to `q`.
pub open spec fn edge_via(mode: Edges, t: Transition, p: i64, q: i64) -> bool {
    match mode {
        Edges::Epsilon => t == (p, EPSILON, q),
        Edges::Forward => t.0 == p && t.2 == q,
        Edges::Backward => t.2 == p && t.0 == q,
    }
}

/// Some transition of `t` is an edge of kind `mode` from `p` to `q`.
pub open spec fn edge(mode: Edges, t: Set<Transition>, p: i64, q: i64) -> bool {
    exists|x: Transition| #[trigger] t.contains(x) && edge_via(mode, x, p, q)
}

/// No edge of kind `mode` leaves the set `u`.
pub open spec fn closed_under(mode: Edges, t: Set<Transition>, u: Set<i64>) -> bool {
    forall|p: i64, q: i64| u.contains(p) && #[trigger] edge(mode, t, p, q) ==> u.contains(q)
}

/// The states reachable from `s` along edges of kind `mode`: the least set that
/// holds `s` and that no such edge leaves.
pub open spec fn closure(mode: Edges, t: Set<Transition>, s: Set<i64>) -> Set<i64> {
    Set::new(
        |q: i64|
            forall|u: Set<i64>| s.subset_of(u) && closed_under(mode, t, u) ==> #[trigger] u.contains(q),
    )
}

/// The states reached from some state of `s` by exactly one transition labelled `c`.
pub open spec fn step(t: Set<Transition>, s: Set<i64>, c: char) -> Set<i64> {
    Set::new(|q: i64| exists|p: i64| s.contains(p) && #[trigger] t.contains((p, c, q)))
}

/// A set that holds `s`, that no edge leaves and that every closed superset of `s` holds
/// is the closure of `s`.
pub proof fn lemma_closure_char(mode: Edges, t: Set<Transition>, s: Set<i64>, r: Set<i64>)
    requires
        s.subset_of(r),
        closed_under(mode, t, r),
        forall|u: Set<i64>| s.subset_of(u) && closed_under(mode, t, u) ==> #[trigger] r.subset_of(u),
    ensures
        r == closure(mode, t, s),
{
    assert forall|q: i64| r.contains(q) implies #[trigger] closure(mode, t, s).contains(q) by {
        assert forall|u: Set<i64>| s.subset_of(u) && closed_under(mode, t, u) implies #[trigger] u.contains(q) by {
            assert(r.subset_of(u));
        }
    }
    assert forall|q: i64| closure(mode, t, s).contains(q) implies #[trigger] r.contains(q) by {
        assert(s.subset_of(r) && closed_under(mode, t, r) ==> r.contains(q));
    }
    assert(r =~= closure(mode, t, s));
}

/// The least non-negative identifier that `s` does not hold.
pub open spec fn first_free(s: Set<i64>) -> i64 {
    choose|k: i64| 0 <= k && !s.contains(k) && forall|j: i64| 0 <= j < k ==> s.contains(j)
}

/// The identifiers `0 .. k`.
pub open spec fn below(k: int) -> Set<i64> {
    Set::new(|j: i64| 0 <= j < k)
}

/// There are `k` identifiers below `k`.
pub proof fn lemma_below_len(k: int)
    requires
        0 <= k <= i64::MAX,
    ensures
        below(k).finite(),
        below(k).len() == k,
    decreases k,
{
    if k == 0 {
        assert(below(0) =~= Set::<i64>::empty());
    } else {
        lemma_below_len(k - 1);
        assert(below(k) =~= below(k - 1).insert((k - 1) as i64));
    }
}

/// A finite family of subsets of a finite set of `n` elements has at most `2^n`
/// members.
pub proof fn lemma_family_bound(s: Set<i64>, f: Set<Set<i64>>)
    requires
        s.finite(),
        f.finite(),
        forall|x: Set<i64>| #[trigger] f.contains(x) ==> x.subset_of(s),
    ensures
        f.len() <= pow2(s.len()),
    decreases s.len(),
{
    broadcast use vstd::set::group_set_axioms, vstd::set_lib::group_set_properties;
    if s.len() == 0 {
        assert(s =~= Set::<i64>::empty());
        let one = set![Set::<i64>::empty()];
        assert forall|x: Set<i64>| #[trigger] f.contains(x) implies one.contains(x) by {
            assert(x =~= Set::<i64>::empty());
        }
        vstd::set_lib::lemma_len_subset(f, one);
        vstd::arithmetic::power2::lemma2_to64();
    } else {
        let e = s.choose();
        let s2 = s.remove(e);
        let f1 = f.filter(|x: Set<i64>| x.contains(e));
        let f0 = f.filter(|x: Set<i64>| !x.contains(e));
        let drop = |x: Set<i64>| x.remove(e);
        let g = f1.map(drop);
        assert(vstd::relations::injective_on(drop, f1)) by {
            assert forall|x: Set<i64>, y: Set<i64>| f1.contains(x) && f1.contains(y) && #[trigger] drop(x) == #[trigger] drop(y) implies x == y by {
                assert forall|q: i64| x.contains(q) <==> y.contains(q) by {
                    if q != e {
                        assert(drop(x).contains(q) == x.contains(q));
                        assert(drop(y).contains(q) == y.contains(q));
                    }
                }
                assert(x =~= y);
            }
        }
        vstd::set_lib::lemma_map_size(f1, g, drop);
        assert forall|x: Set<i64>| #[trigger] g.contains(x) implies x.subset_of(s2) by {
            let y = choose|y: Set<i64>| f1.contains(y) && drop(y) == x;
        }
        assert forall|x: Set<i64>| #[trigger] f0.contains(x) implies x.subset_of(s2) by {}
        lemma_family_bound(s2, g);
        lemma_family_bound(s2, f0);
        assert(f =~= f0 + f1);
        vstd::set_lib::lemma_set_disjoint_lens(f0, f1);
        vstd::arithmetic::power2::lemma_pow2_unfold(s.len());
    }
}

/// The states reached by reading `w`: epsilon-closure of the initial states, then
/// for each symbol one step followed by an epsilon-closure.
pub open spec fn run(t: Set<Transition>, initials: Set<i64>, w: Seq<char>) -> Set<i64>
    decreases w.len(),
{
    if w.len() == 0 {
        closure(Edges::Epsilon, t, initials)
    } else {
        closure(Edges::Epsilon, t, step(t, run(t, initials, w.drop_last()), w.last()))
    }
}

} // verus!
