//! Laws that relate several operations of the library.
use vstd::prelude::*;
use crate::automate::AutomatonView;
use crate::automate::transform::{
    MAX_SUBSETS,
    complement_of,
    complement_spec,
    image,
    lemma_complement_keeps,
    lemma_subset_count,
    subset_automaton,
};
use crate::model::{
    EPSILON,
    Edges,
    Transition,
    below,
    closed_under,
    closure,
    edge,
    edge_via,
    lemma_below_len,
    lemma_closure_char,
    run,
    step,
};

verus! {

/// Adding a symbol a second time reports no insertion and changes nothing.
pub proof fn law_add_symbol_twice(a0: AutomatonView, a1: AutomatonView, a2: AutomatonView, c: char, r1: bool, r2: bool)
    requires
        a0.adds_symbol(a1, c, r1),
        a1.adds_symbol(a2, c, r2),
    ensures
        !r2,
        a2 == a1,
{
}

/// Adding a state a second time reports no insertion and changes nothing.
pub proof fn law_add_state_twice(a0: AutomatonView, a1: AutomatonView, a2: AutomatonView, s: i64, r1: bool, r2: bool)
    requires
        a0.adds_state(a1, s, r1),
        a1.adds_state(a2, s, r2),
    ensures
        !r2,
        a2 == a1,
{
}

/// Adding a transition a second time reports no insertion and changes nothing.
pub proof fn law_add_transition_twice(
    a0: AutomatonView,
    a1: AutomatonView,
    a2: AutomatonView,
    t: Transition,
    r1: bool,
    r2: bool,
)
    requires
        a0.adds_transition(a1, t, r1),
        a1.adds_transition(a2, t, r2),
    ensures
        !r2,
        a2 == a1,
{
}

/// The language is not empty as soon as a path of transitions leads from an
/// initial state to a final state; a path of one state, initial and final, counts.
pub proof fn law_path_makes_language_non_empty(a: AutomatonView, path: Seq<Transition>, start: i64, end: i64)
    requires
        a.initials.contains(start),
        a.finals.contains(end),
        path.len() == 0 ==> start == end,
        path.len() > 0 ==> path[0].0 == start && path.last().2 == end,
        forall|k: int| 0 <= k < path.len() ==> a.transitions.contains(#[trigger] path[k]),
        forall|k: int| 0 <= k < path.len() - 1 ==> (#[trigger] path[k]).2 == path[k + 1].0,
    ensures
        !a.language_empty(),
{
    assert forall|u: Set<i64>| a.initials.subset_of(u) && closed_under(Edges::Forward, a.transitions, u) implies #[trigger] u.contains(end) by {
        if path.len() > 0 {
            lemma_path_closed(a, path, start, u, path.len() - 1);
            assert(u.contains(path[path.len() - 1].2));
        }
    }
    assert(a.accessible().contains(end));
}

/// Every set that holds the start of a path and that no transition leaves holds each
/// state the path reaches.
proof fn lemma_path_closed(a: AutomatonView, path: Seq<Transition>, start: i64, u: Set<i64>, k: int)
    requires
        0 <= k < path.len(),
        path[0].0 == start,
        u.contains(start),
        closed_under(Edges::Forward, a.transitions, u),
        forall|j: int| 0 <= j < path.len() ==> a.transitions.contains(#[trigger] path[j]),
        forall|j: int| 0 <= j < path.len() - 1 ==> (#[trigger] path[j]).2 == path[j + 1].0,
    ensures
        u.contains(path[k].2),
    decreases k,
{
    let t = path[k];
    if k > 0 {
        lemma_path_closed(a, path, start, u, k - 1);
        assert(path[k - 1].2 == t.0);
    }
    assert(edge_via(Edges::Forward, t, t.0, t.2));
    assert(edge(Edges::Forward, a.transitions, t.0, t.2));
}

/// Complementing a deterministic and complete automaton twice gives it back.
pub proof fn law_double_complement(a: AutomatonView, c1: AutomatonView, c2: AutomatonView)
    requires
        a.wf(),
        a.deterministic(),
        a.complete(),
        complement_spec(a, c1),
        complement_spec(c1, c2),
    ensures
        c2 == a,
{
    lemma_complement_keeps(a);
    assert(c1 == complement_of(a));
    assert(c2 == complement_of(c1));
    assert(c2.finals =~= a.finals);
}

/// Without epsilon transitions, an epsilon-closure adds nothing.
pub proof fn lemma_closure_without_epsilon(t: Set<Transition>, s: Set<i64>)
    requires
        forall|x: Transition| #[trigger] t.contains(x) ==> x.1 != EPSILON,
    ensures
        closure(Edges::Epsilon, t, s) == s,
{
    assert forall|p: i64, q: i64| s.contains(p) && #[trigger] edge(Edges::Epsilon, t, p, q) implies s.contains(q) by {
        let x = choose|x: Transition| #[trigger] t.contains(x) && edge_via(Edges::Epsilon, x, p, q);
    }
    lemma_closure_char(Edges::Epsilon, t, s, s);
}

/// Nothing is reachable from no state.
pub proof fn lemma_closure_of_empty(mode: Edges, t: Set<Transition>)
    ensures
        closure(mode, t, Set::empty()) == Set::<i64>::empty(),
{
    lemma_closure_char(mode, t, Set::empty(), Set::empty());
}

/// After reading `w`, the subset construction is in the one state that stands for
/// the states `a` reached, or (when `a` reached none) possibly in no state.
proof fn lemma_subset_run(a: AutomatonView, r: AutomatonView, sets: Seq<Set<i64>>, w: Seq<char>)
    requires
        a.wf(),
        r.wf(),
        r.deterministic(),
        subset_automaton(a, r, sets),
        sets.len() < MAX_SUBSETS,
        !w.contains(EPSILON),
    ensures
        (exists|k: i64|
            0 <= k < sets.len() && run(r.transitions, r.initials, w) == set![k] && #[trigger] sets[k as int]
                == run(a.transitions, a.initials, w)) || (run(r.transitions, r.initials, w)
            == Set::<i64>::empty() && run(a.transitions, a.initials, w) == Set::<i64>::empty()),
    decreases w.len(),
{
    let rt = r.transitions;
    let at = a.transitions;
    assert forall|x: Transition| #[trigger] rt.contains(x) implies x.1 != EPSILON by {
        assert(!r.has_epsilon());
    }
    if w.len() == 0 {
        lemma_closure_without_epsilon(rt, r.initials);
        assert(sets[0 as int] == run(at, a.initials, w));
    } else {
        let w0 = w.drop_last();
        let c = w.last();
        assert(!w0.contains(EPSILON)) by {
            if w0.contains(EPSILON) {
                let i = choose|i: int| 0 <= i < w0.len() && w0[i] == EPSILON;
                assert(w[i] == EPSILON);
            }
        }
        assert(c != EPSILON) by {
            assert(w[w.len() - 1] == c);
        }
        lemma_subset_run(a, r, sets, w0);
        let rs = run(rt, r.initials, w0);
        let as0 = run(at, a.initials, w0);
        lemma_closure_without_epsilon(rt, step(rt, rs, c));
        assert(run(rt, r.initials, w) == step(rt, rs, c));
        assert(run(at, a.initials, w) == closure(Edges::Epsilon, at, step(at, as0, c)));
        if exists|k: i64| 0 <= k < sets.len() && rs == set![k] && #[trigger] sets[k as int] == as0 {
            let k = choose|k: i64| 0 <= k < sets.len() && rs == set![k] && #[trigger] sets[k as int] == as0;
            assert(run(at, a.initials, w) == image(a, sets[k as int], c));
            if exists|j: i64| #[trigger] rt.contains((k, c, j)) {
                let j = choose|j: i64| #[trigger] rt.contains((k, c, j));
                assert(step(rt, rs, c) =~= set![j]) by {
                    assert forall|q: i64| #[trigger] step(rt, rs, c).contains(q) implies q == j by {
                        let p = choose|p: i64| rs.contains(p) && #[trigger] rt.contains((p, c, q));
                        assert(p == k);
                    }
                    assert(rs.contains(k));
                }
                assert(r.states.contains(j));
                assert(sets[j as int] == image(a, sets[k as int], c));
            } else {
                assert(step(rt, rs, c) =~= Set::<i64>::empty()) by {
                    assert forall|q: i64| !#[trigger] step(rt, rs, c).contains(q) by {
                        if step(rt, rs, c).contains(q) {
                            let p = choose|p: i64| rs.contains(p) && #[trigger] rt.contains((p, c, q));
                            assert(p == k);
                        }
                    }
                }
                if !image(a, sets[k as int], c).is_empty() {
                    let q = image(a, sets[k as int], c).choose();
                    if step(at, sets[k as int], c) == Set::<i64>::empty() {
                        lemma_closure_of_empty(Edges::Epsilon, at);
                        assert(image(a, sets[k as int], c).contains(q));
                    }
                    assert(!step(at, sets[k as int], c).is_empty()) by {
                        if step(at, sets[k as int], c).is_empty() {
                            assert(step(at, sets[k as int], c) =~= Set::<i64>::empty());
                        }
                    }
                    let q2 = step(at, sets[k as int], c).choose();
                    assert(step(at, sets[k as int], c).contains(q2));
                    let p = choose|p: i64| sets[k as int].contains(p) && #[trigger] at.contains((p, c, q2));
                    assert(a.symbols.contains(c));
                    assert(r.has_succ(k, c));
                }
                assert(image(a, sets[k as int], c) =~= Set::<i64>::empty());
            }
        } else {
            assert(step(rt, rs, c) =~= Set::<i64>::empty());
            assert(step(at, as0, c) =~= Set::<i64>::empty());
            lemma_closure_of_empty(Edges::Epsilon, at);
        }
    }
}

/// The subset construction accepts exactly the words that the automaton accepts:
/// every word without the epsilon character, when the identifiers did not run out,
/// which they cannot for an automaton of at most 61 states.
pub proof fn law_deterministic_same_language(a: AutomatonView, r: AutomatonView, sets: Seq<Set<i64>>, w: Seq<char>)
    requires
        a.wf(),
        r.wf(),
        r.deterministic(),
        subset_automaton(a, r, sets),
        sets.len() < MAX_SUBSETS || a.states.len() <= 61,
        !w.contains(EPSILON),
    ensures
        r.accepts(w) == a.accepts(w),
{
    lemma_subset_count(a, r, sets);
    lemma_subset_run(a, r, sets, w);
    lemma_below_len(sets.len() as int);
    assert(r.states.len() > 0);
    let rr = run(r.transitions, r.initials, w);
    let ar = run(a.transitions, a.initials, w);
    if exists|k: i64| 0 <= k < sets.len() && rr == set![k] && #[trigger] sets[k as int] == ar {
        let k = choose|k: i64| 0 <= k < sets.len() && rr == set![k] && #[trigger] sets[k as int] == ar;
        if r.accepts(w) {
            let q = choose|q: i64| #[trigger] r.read(w).contains(q) && r.finals.contains(q);
            assert(q == k);
            let p = choose|p: i64| #[trigger] sets[k as int].contains(p) && a.finals.contains(p);
            assert(a.states.contains(p));
            assert(a.read(w).contains(p));
        }
        if a.accepts(w) {
            let p = choose|p: i64| #[trigger] a.read(w).contains(p) && a.finals.contains(p);
            assert(sets[k as int].contains(p));
            assert(r.finals.contains(k));
            assert(r.read(w).contains(k));
        }
    } else {
        if r.accepts(w) {
            let q = choose|q: i64| #[trigger] r.read(w).contains(q) && r.finals.contains(q);
            assert(rr.contains(q));
        }
        if a.accepts(w) {
            let p = choose|p: i64| #[trigger] a.read(w).contains(p) && a.finals.contains(p);
            assert(ar.contains(p));
        }
    }
}

} // verus!
