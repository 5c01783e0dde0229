//! Automata built from other automata: mirror, completion, complement and subset
//! construction.
use vstd::prelude::*;
use vstd::arithmetic::power2::pow2;
use crate::automate::{Automate, AutomatonView};
use crate::model::{
    EPSILON,
    Edges,
    Transition,
    below,
    closed_under,
    closure,
    edge,
    edge_via,
    first_free,
    lemma_below_len,
    lemma_family_bound,
    step,
};
use crate::vecset;

verus! {

/// `a` with every transition reversed and the initial and final states swapped.
pub open spec fn mirror_of(a: AutomatonView) -> AutomatonView {
    AutomatonView {
        symbols: a.symbols,
        states: a.states,
        initials: a.finals,
        finals: a.initials,
        transitions: Set::new(|t: Transition| a.transitions.contains((t.2, t.1, t.0))),
    }
}

/// `a` with the state `sink` added, looping on every symbol, and a transition to
/// `sink` for each state and symbol that had none.
pub open spec fn completion_of(a: AutomatonView, sink: i64) -> AutomatonView {
    AutomatonView {
        states: a.states.insert(sink),
        transitions: a.transitions.union(missing(a, sink, a.states.insert(sink))),
        ..a
    }
}

/// The transitions to `sink` that a state of `from` lacks.
pub open spec fn missing(a: AutomatonView, sink: i64, from: Set<i64>) -> Set<Transition> {
    Set::new(
        |t: Transition|
            t.2 == sink && a.symbols.contains(t.1) && from.contains(t.0) && !a.has_succ(t.0, t.1),
    )
}

/// `a` with its final and non-final states swapped.
pub open spec fn complement_of(a: AutomatonView) -> AutomatonView {
    AutomatonView { finals: a.states.difference(a.finals), ..a }
}

/// A completion is complete, and deterministic when the automaton was.
pub proof fn lemma_completion(a: AutomatonView, sink: i64)
    requires
        a.wf(),
        !a.states.contains(sink),
        sink >= 0,
    ensures
        forall|t: Transition| #[trigger] completion_of(a, sink).transitions.contains(t) ==> {
            &&& completion_of(a, sink).states.contains(t.0)
            &&& completion_of(a, sink).states.contains(t.2)
            &&& (t.1 == EPSILON || a.symbols.contains(t.1))
        },
        completion_of(a, sink).complete(),
        a.deterministic() ==> completion_of(a, sink).deterministic(),
{
    let r = completion_of(a, sink);
    assert forall|p: i64, c: char| r.states.contains(p) && r.symbols.contains(c) implies #[trigger] r.has_succ(p, c) by {
        if !a.has_succ(p, c) {
            assert(r.transitions.contains((p, c, sink)));
        } else {
            let q = choose|q: i64| #[trigger] a.transitions.contains((p, c, q));
            assert(r.transitions.contains((p, c, q)));
        }
    }
    if a.deterministic() {
        assert forall|p: i64, c: char, q1: i64, q2: i64|
            #[trigger] r.transitions.contains((p, c, q1)) && #[trigger] r.transitions.contains((p, c, q2)) implies q1 == q2 by {
            if a.transitions.contains((p, c, q1)) && !a.transitions.contains((p, c, q2)) {
                assert(a.has_succ(p, c));
                assert(a.states.contains(p));
            }
            if a.transitions.contains((p, c, q2)) && !a.transitions.contains((p, c, q1)) {
                assert(a.has_succ(p, c));
                assert(a.states.contains(p));
            }
        }
        assert forall|t: Transition| #[trigger] r.transitions.contains(t) implies t.1 != EPSILON by {
            if !a.transitions.contains(t) {
                assert(a.symbols.contains(t.1));
            } else {
                assert(!a.has_epsilon());
            }
        }
    }
}

/// The largest number of subsets that the subset construction numbers: each gets an
/// identifier of type `i64`, and one more stays free for a sink state.
pub const MAX_SUBSETS: u64 = 0x7fff_ffff_ffff_fffe;

/// The epsilon-closure of the states reached from `s` by one transition labelled `c`.
pub open spec fn image(a: AutomatonView, s: Set<i64>, c: char) -> Set<i64> {
    closure(Edges::Epsilon, a.transitions, step(a.transitions, s, c))
}

/// Some transition of `ts` enters position `k` from an earlier position.
pub open spec fn entered_seq(ts: Seq<Transition>, k: int) -> bool {
    exists|x: int| 0 <= x < ts.len() && ts[x].2 == k && ts[x].0 < k
}

/// Some transition of `r` enters the state `k` from a smaller state.
pub open spec fn entered(r: AutomatonView, k: i64) -> bool {
    exists|p: i64, c: char| p < k && #[trigger] r.transitions.contains((p, c, k))
}

/// `r` is the subset construction of `a`, its state `k` standing for the set of
/// states `sets[k]` of `a`: state 0 stands for the epsilon-closure of the initial
/// states, a state is final iff its set holds a final state, each transition leads
/// to the image of its origin's set, which is never empty, and (unless the
/// identifiers ran out) every non-empty image has its transition. The sets are
/// distinct, and every state but 0 is entered from a smaller one, so all are
/// reachable.
pub open spec fn subset_automaton(a: AutomatonView, r: AutomatonView, sets: Seq<Set<i64>>) -> bool {
    &&& 1 <= sets.len() <= MAX_SUBSETS
    &&& r.symbols == a.symbols
    &&& r.states == below(sets.len() as int)
    &&& r.initials == set![0i64]
    &&& sets[0] == closure(Edges::Epsilon, a.transitions, a.initials)
    &&& forall|k: int| 0 <= k < sets.len() ==> (#[trigger] sets[k]).subset_of(a.states)
    &&& forall|x: int, y: int| 0 <= x < y < sets.len() ==> #[trigger] sets[x] != #[trigger] sets[y]
    &&& forall|k: i64| 0 < k < sets.len() ==> #[trigger] entered(r, k)
    &&& forall|k: i64|
        0 <= k < sets.len() ==> (#[trigger] r.finals.contains(k) <==> exists|q: i64|
            #[trigger] sets[k as int].contains(q) && a.finals.contains(q))
    &&& forall|t: Transition| #[trigger]
        r.transitions.contains(t) ==> a.symbols.contains(t.1) && sets[t.2 as int] == image(
            a,
            sets[t.0 as int],
            t.1,
        ) && !sets[t.2 as int].is_empty()
    &&& sets.len() < MAX_SUBSETS ==> forall|k: i64, c: char|
        0 <= k < sets.len() && a.symbols.contains(c) && !image(a, sets[k as int], c).is_empty()
            ==> #[trigger] r.has_succ(k, c)
}

/// `a` itself when it is complete, else its completion with the least free sink.
pub open spec fn completed(a: AutomatonView) -> AutomatonView {
    if a.complete() {
        a
    } else {
        completion_of(a, first_free(a.states))
    }
}

/// Swapping final and non-final states keeps determinism and completeness.
pub proof fn lemma_complement_keeps(a: AutomatonView)
    ensures
        complement_of(a).deterministic() == a.deterministic(),
        complement_of(a).complete() == a.complete(),
{
    let r = complement_of(a);
    assert(r.transitions == a.transitions);
    assert(r.states == a.states && r.symbols == a.symbols && r.initials == a.initials);
    assert forall|p: i64, c: char| #[trigger] r.has_succ(p, c) == a.has_succ(p, c) by {}
    assert(r.has_epsilon() == a.has_epsilon());
    if a.complete() {
        assert forall|p: i64, c: char| r.states.contains(p) && r.symbols.contains(c) implies #[trigger] r.has_succ(p, c) by {
            assert(a.has_succ(p, c));
        }
    }
    if r.complete() {
        assert forall|p: i64, c: char| a.states.contains(p) && a.symbols.contains(c) implies #[trigger] a.has_succ(p, c) by {
            assert(r.has_succ(p, c));
        }
    }
}

/// `r` is what `create_complement` makes of `a`.
pub open spec fn complement_spec(a: AutomatonView, r: AutomatonView) -> bool {
    &&& r.deterministic()
    &&& r.complete()
    &&& a.deterministic() && a.complete() ==> r == complement_of(a)
    &&& !(a.deterministic() && a.complete()) ==> exists|d: AutomatonView|
        #![trigger complement_of(completed(d))]
        d.wf() && d.deterministic() && (exists|sets: Seq<Set<i64>>| subset_automaton(a, d, sets))
            && r == complement_of(completed(d))
}

/// A subset construction has at most `2^n` states, `n` being the number of states of
/// the automaton it is built from, since its sets are distinct sets of those states.
pub proof fn lemma_subset_count(a: AutomatonView, r: AutomatonView, sets: Seq<Set<i64>>)
    requires
        a.wf(),
        subset_automaton(a, r, sets),
    ensures
        r.states.len() == sets.len(),
        sets.len() <= pow2(a.states.len()),
        a.states.len() <= 61 ==> sets.len() < MAX_SUBSETS,
{
    assert(sets.no_duplicates()) by {
        assert forall|x: int, y: int| 0 <= x < sets.len() && 0 <= y < sets.len() && x != y implies sets[x] != sets[y] by {
            if x < y {
                assert(sets[x] != sets[y]);
            } else {
                assert(sets[y] != sets[x]);
            }
        }
    }
    sets.unique_seq_to_set();
    vstd::seq_lib::seq_to_set_is_finite(sets);
    assert forall|x: Set<i64>| #[trigger] sets.to_set().contains(x) implies x.subset_of(a.states) by {
        let k = choose|k: int| 0 <= k < sets.len() && sets[k] == x;
    }
    lemma_family_bound(a.states, sets.to_set());
    lemma_below_len(sets.len() as int);
    if a.states.len() <= 61 {
        vstd::arithmetic::power2::lemma2_to64_rest();
        if a.states.len() < 61 {
            vstd::arithmetic::power2::lemma_pow2_strictly_increases(a.states.len(), 61);
        }
        assert(pow2(61) == 0x2000000000000000);
        assert(pow2(a.states.len()) <= 0x2000000000000000);
        assert(sets.len() <= 0x2000000000000000);
    }
}

/// Every state of a subset construction is reachable from its initial state.
pub proof fn lemma_subset_accessible(a: AutomatonView, r: AutomatonView, sets: Seq<Set<i64>>)
    requires
        r.wf(),
        subset_automaton(a, r, sets),
    ensures
        r.accessible() == r.states,
{
    assert forall|k: i64| #[trigger] r.states.contains(k) implies r.accessible().contains(k) by {
        lemma_entered_accessible(a, r, sets, k);
    }
    assert forall|p: i64, q: i64| r.states.contains(p) && #[trigger] edge(Edges::Forward, r.transitions, p, q) implies r.states.contains(q) by {
        let t = choose|t: Transition| #[trigger] r.transitions.contains(t) && edge_via(Edges::Forward, t, p, q);
    }
    assert forall|k: i64| #[trigger] r.accessible().contains(k) implies r.states.contains(k) by {
        assert(r.initials.subset_of(r.states));
    }
    assert(r.accessible() =~= r.states);
}

proof fn lemma_entered_accessible(a: AutomatonView, r: AutomatonView, sets: Seq<Set<i64>>, k: i64)
    requires
        r.wf(),
        subset_automaton(a, r, sets),
        r.states.contains(k),
    ensures
        r.accessible().contains(k),
    decreases k,
{
    assert forall|u: Set<i64>| r.initials.subset_of(u) && closed_under(Edges::Forward, r.transitions, u) implies #[trigger] u.contains(k) by {
        if k == 0 {
            assert(r.initials.contains(0));
        } else {
            assert(entered(r, k));
            let (p, c) = choose|p: i64, c: char| p < k && #[trigger] r.transitions.contains((p, c, k));
            assert(r.states.contains(p));
            lemma_entered_accessible(a, r, sets, p);
            assert(u.contains(p));
            assert(edge_via(Edges::Forward, (p, c, k), p, k));
            assert(edge(Edges::Forward, r.transitions, p, k));
        }
    }
}

impl Automate {
    /// A copy of `other`.
    fn copy(other: &Automate) -> (r: Automate)
        requires
            other.wf(),
        ensures
            r.wf(),
            r@ == other@,
            r.alphabet@ == other.alphabet@,
            r.states@ == other.states@,
            r.initial_state@ == other.initial_state@,
            r.final_states@ == other.final_states@,
            r.transitions@ == other.transitions@,
    {
        Automate {
            alphabet: vecset::copy_symbols(&other.alphabet),
            states: vecset::copy_states(&other.states),
            initial_state: vecset::copy_states(&other.initial_state),
            final_states: vecset::copy_states(&other.final_states),
            transitions: vecset::copy_transitions(&other.transitions),
        }
    }

    /// The mirror of `other`: every transition reversed, initial and final states
    /// swapped.
    pub fn create_mirror(other: &Automate) -> (r: Automate)
        requires
            other.wf(),
        ensures
            r.wf(),
            r@ == mirror_of(other@),
    {
        let mut transitions: Vec<Transition> = Vec::new();
        let mut i: usize = 0;
        while i < other.transitions.len()
            invariant
                other.wf(),
                i <= other.transitions.len(),
                transitions@.len() == i,
                forall|k: int| 0 <= k < i ==> #[trigger] transitions@[k] == (
                    other.transitions@[k].2,
                    other.transitions@[k].1,
                    other.transitions@[k].0,
                ),
            decreases other.transitions.len() - i,
        {
            let t = other.transitions[i];
            transitions.push((t.2, t.1, t.0));
            i += 1;
        }
        assert forall|a: int, b: int| 0 <= a < b < transitions@.len() implies transitions@[a] != transitions@[b] by {
            assert(other.transitions@[a] != other.transitions@[b]);
        }
        assert forall|t: Transition| #[trigger] transitions@.contains(t) <==> other@.transitions.contains((t.2, t.1, t.0)) by {
            if transitions@.contains(t) {
                let k = choose|k: int| 0 <= k < transitions@.len() && transitions@[k] == t;
                assert(other.transitions@[k] == (t.2, t.1, t.0));
            }
            if other@.transitions.contains((t.2, t.1, t.0)) {
                let k = choose|k: int| 0 <= k < other.transitions@.len() && other.transitions@[k] == (t.2, t.1, t.0);
                assert(transitions@[k] == t);
            }
        }
        let r = Automate {
            alphabet: vecset::copy_symbols(&other.alphabet),
            states: vecset::copy_states(&other.states),
            initial_state: vecset::copy_states(&other.final_states),
            final_states: vecset::copy_states(&other.initial_state),
            transitions,
        };
        assert(r@.transitions =~= mirror_of(other@).transitions);
        r
    }

    /// The least non-negative identifier that is not a state.
    fn fresh_state(&self) -> (r: i64)
        requires
            self.wf(),
            self@.states.len() < i64::MAX,
        ensures
            r == first_free(self@.states),
            0 <= r,
            !self@.states.contains(r),
    {
        let mut k: i64 = 0;
        while vecset::has_state(&self.states, k)
            invariant
                self.wf(),
                self@.states.len() < i64::MAX,
                0 <= k,
                forall|j: i64| 0 <= j < k ==> self@.states.contains(j),
            decreases self@.states.len() - k,
        {
            proof {
                vecset::lemma_len(self.states@);
                lemma_below_len(k as int);
                assert(below(k as int).subset_of(self@.states));
                vstd::set_lib::lemma_len_subset(below(k as int), self@.states);
                lemma_below_len(k + 1);
                assert(below(k + 1).subset_of(self@.states));
                vstd::set_lib::lemma_len_subset(below(k + 1), self@.states);
            }
            k += 1;
        }
        proof {
            vecset::lemma_len(self.states@);
            assert(0 <= k && !self@.states.contains(k) && forall|j: i64| 0 <= j < k ==> self@.states.contains(j));
            let f = first_free(self@.states);
            assert(0 <= f && !self@.states.contains(f) && forall|j: i64| 0 <= j < f ==> self@.states.contains(j));
            if f < k {
                assert(self@.states.contains(f));
            }
            if k < f {
                assert(self@.states.contains(k));
            }
        }
        k
    }

    /// Adds to `transitions` a transition from `p` to `sink` on every symbol that
    /// no transition from `p` carries.
    fn add_missing(&self, transitions: &mut Vec<Transition>, p: i64, sink: i64)
        requires
            self.wf(),
            old(transitions)@.no_duplicates(),
        ensures
            final(transitions)@.no_duplicates(),
            final(transitions)@.to_set() == old(transitions)@.to_set().union(
                missing(self@, sink, set![p]),
            ),
    {
        let ghost a = self@;
        let ghost start = transitions@.to_set();
        let mut j: usize = 0;
        while j < self.alphabet.len()
            invariant
                self.wf(),
                a == self@,
                j <= self.alphabet.len(),
                transitions@.no_duplicates(),
                transitions@.to_set() == start.union(
                    missing(a, sink, set![p]).filter(|t: Transition| self.alphabet@.subrange(0, j as int).contains(t.1)),
                ),
            decreases self.alphabet.len() - j,
        {
            let c = self.alphabet[j];
            if !self.has_successor(p, c) {
                vecset::insert_transition(transitions, (p, c, sink));
            }
            proof {
                vecset::lemma_prefix_contains(self.alphabet@, j as int);
            }
            assert(self@.symbols.contains(c));
            assert(transitions@.to_set() =~= start.union(
                missing(a, sink, set![p]).filter(|t: Transition| self.alphabet@.subrange(0, j + 1).contains(t.1)),
            ));
            j += 1;
        }
        assert(self.alphabet@.subrange(0, self.alphabet@.len() as int) =~= self.alphabet@);
        assert(missing(a, sink, set![p]).filter(|t: Transition| self.alphabet@.contains(t.1)) =~= missing(a, sink, set![p]));
    }

    /// Numbers the sets of states reachable by the subset construction, from the
    /// epsilon-closure of the initial states, and lists the transitions among them.
    #[verifier::rlimit(60)]
    fn explore_subsets(&self) -> (r: (Vec<Vec<i64>>, Vec<Transition>))
        requires
            self.wf(),
        ensures
            1 <= r.0@.len() <= MAX_SUBSETS,
            r.0@[0]@.to_set() == closure(Edges::Epsilon, self@.transitions, self@.initials),
            forall|k: int| 0 <= k < r.0@.len() ==> (#[trigger] r.0@[k])@.to_set().subset_of(self@.states),
            forall|x: int, y: int| 0 <= x < y < r.0@.len() ==> (#[trigger] r.0@[x])@.to_set() != (#[trigger] r.0@[y])@.to_set(),
            forall|k: int| 1 <= k < r.0@.len() ==> #[trigger] entered_seq(r.1@, k),
            forall|x: int, y: int|
                0 <= x < y < r.1@.len() ==> ((#[trigger] r.1@[x]).0 != (#[trigger] r.1@[y]).0
                    || r.1@[x].1 != r.1@[y].1),
            forall|x: int|
                0 <= x < r.1@.len() ==> {
                    &&& 0 <= (#[trigger] r.1@[x]).0 < r.0@.len()
                    &&& 0 <= r.1@[x].2 < r.0@.len()
                    &&& self@.symbols.contains(r.1@[x].1)
                    &&& r.0@[r.1@[x].2 as int]@.to_set() == image(self@, r.0@[r.1@[x].0 as int]@.to_set(), r.1@[x].1)
                    &&& r.0@[r.1@[x].2 as int]@.len() > 0
                },
            r.0@.len() < MAX_SUBSETS ==> forall|k: int, c: char|
                0 <= k < r.0@.len() && self@.symbols.contains(c) && !(#[trigger] image(self@, r.0@[k]@.to_set(), c)).is_empty()
                    ==> exists|x: int| 0 <= x < r.1@.len() && (#[trigger] r.1@[x]).0 == k && r.1@[x].1 == c,
    {
        let ghost a = self@;
        let start = self.reach(&self.initial_state, Edges::Epsilon);
        let mut subsets: Vec<Vec<i64>> = Vec::new();
        subsets.push(start);
        let mut transitions: Vec<Transition> = Vec::new();
        let mut i: usize = 0;
        while i < subsets.len()
            invariant
                self.wf(),
                a == self@,
                1 <= subsets@.len() <= MAX_SUBSETS,
                i <= subsets@.len(),
                subsets@[0]@.to_set() == closure(Edges::Epsilon, a.transitions, a.initials),
                forall|k: int| 0 <= k < subsets@.len() ==> (#[trigger] subsets@[k])@.to_set().subset_of(a.states),
                forall|x: int, y: int| 0 <= x < y < subsets@.len() ==> (#[trigger] subsets@[x])@.to_set() != (#[trigger] subsets@[y])@.to_set(),
                forall|k: int| 1 <= k < subsets@.len() ==> #[trigger] entered_seq(transitions@, k),
                forall|x: int, y: int|
                    0 <= x < y < transitions@.len() ==> ((#[trigger] transitions@[x]).0 != (#[trigger] transitions@[y]).0
                        || transitions@[x].1 != transitions@[y].1),
                forall|x: int|
                    0 <= x < transitions@.len() ==> {
                        &&& 0 <= (#[trigger] transitions@[x]).0 < i
                        &&& 0 <= transitions@[x].2 < subsets@.len()
                        &&& a.symbols.contains(transitions@[x].1)
                        &&& subsets@[transitions@[x].2 as int]@.to_set() == image(a, subsets@[transitions@[x].0 as int]@.to_set(), transitions@[x].1)
                        &&& subsets@[transitions@[x].2 as int]@.len() > 0
                    },
                subsets@.len() < MAX_SUBSETS ==> forall|k: int, c: char|
                    0 <= k < i && a.symbols.contains(c) && !(#[trigger] image(a, subsets@[k]@.to_set(), c)).is_empty()
                        ==> exists|x: int| 0 <= x < transitions@.len() && (#[trigger] transitions@[x]).0 == k && transitions@[x].1 == c,
            decreases MAX_SUBSETS - i,
        {
            let mut j: usize = 0;
            while j < self.alphabet.len()
                invariant
                    self.wf(),
                    a == self@,
                    1 <= subsets@.len() <= MAX_SUBSETS,
                    i < subsets@.len(),
                    j <= self.alphabet.len(),
                    subsets@[0]@.to_set() == closure(Edges::Epsilon, a.transitions, a.initials),
                    forall|k: int| 0 <= k < subsets@.len() ==> (#[trigger] subsets@[k])@.to_set().subset_of(a.states),
                    forall|x: int, y: int| 0 <= x < y < subsets@.len() ==> (#[trigger] subsets@[x])@.to_set() != (#[trigger] subsets@[y])@.to_set(),
                    forall|k: int| 1 <= k < subsets@.len() ==> #[trigger] entered_seq(transitions@, k),
                forall|x: int, y: int| 0 <= x < y < subsets@.len() ==> (#[trigger] subsets@[x])@.to_set() != (#[trigger] subsets@[y])@.to_set(),
                forall|k: int| 1 <= k < subsets@.len() ==> #[trigger] entered_seq(transitions@, k),
                    forall|x: int, y: int|
                        0 <= x < y < transitions@.len() ==> ((#[trigger] transitions@[x]).0 != (#[trigger] transitions@[y]).0
                            || transitions@[x].1 != transitions@[y].1),
                    forall|x: int|
                        0 <= x < transitions@.len() ==> {
                            &&& 0 <= (#[trigger] transitions@[x]).0 <= i
                            &&& (transitions@[x].0 == i ==> self.alphabet@.subrange(0, j as int).contains(transitions@[x].1))
                            &&& 0 <= transitions@[x].2 < subsets@.len()
                            &&& a.symbols.contains(transitions@[x].1)
                            &&& subsets@[transitions@[x].2 as int]@.to_set() == image(a, subsets@[transitions@[x].0 as int]@.to_set(), transitions@[x].1)
                            &&& subsets@[transitions@[x].2 as int]@.len() > 0
                        },
                    subsets@.len() < MAX_SUBSETS ==> forall|k: int, c: char|
                        0 <= k < i && a.symbols.contains(c) && !(#[trigger] image(a, subsets@[k]@.to_set(), c)).is_empty()
                            ==> exists|x: int| 0 <= x < transitions@.len() && (#[trigger] transitions@[x]).0 == k && transitions@[x].1 == c,
                    subsets@.len() < MAX_SUBSETS ==> forall|b: int|
                        0 <= b < j && !image(a, subsets@[i as int]@.to_set(), #[trigger] self.alphabet@[b]).is_empty()
                            ==> exists|x: int| 0 <= x < transitions@.len() && (#[trigger] transitions@[x]).0 == i && transitions@[x].1 == self.alphabet@[b],
                decreases self.alphabet.len() - j,
            {
                let c = self.alphabet[j];
                proof {
                    vecset::lemma_prefix_contains(self.alphabet@, j as int);
                }
                assert(a.symbols.contains(c));
                let moved = self.make_transition(&subsets[i], c);
                let img = self.reach(&moved, Edges::Epsilon);
                let ghost from = subsets@[i as int]@.to_set();
                assert(img@.to_set() == image(a, from, c));
                if img.len() > 0 {
                    assert(img@.to_set().contains(img@[0]));
                    let target: Option<usize> = match vecset::find_set(&subsets, &img) {
                        Some(k) => {
                            assert(subsets@[k as int]@.to_set().contains(img@[0]));
                            Some(k)
                        },
                        None => {
                            if (subsets.len() as u64) < MAX_SUBSETS {
                                let k = subsets.len();
                                let ghost before = subsets@;
                                subsets.push(img);
                                assert forall|kk: int| 0 <= kk < before.len() implies subsets@[kk] == before[kk] by {}
                                assert(subsets@[k as int]@.len() > 0);
                                Some(k)
                            } else {
                                None
                            }
                        },
                    };
                    match target {
                        Some(k) => {
                            let ghost before = transitions@;
                            assert forall|x: int| 0 <= x < before.len() implies !((#[trigger] before[x]).0 == i && before[x].1 == c) by {
                                if before[x].0 == i {
                                    assert(self.alphabet@.subrange(0, j as int).contains(before[x].1));
                                    let b = choose|b: int| 0 <= b < j && self.alphabet@.subrange(0, j as int)[b] == before[x].1;
                                    assert(self.alphabet@[b] == before[x].1);
                                }
                            }
                            transitions.push((i as i64, c, k as i64));
                            assert(transitions@[before.len() as int] == (i as i64, c, k as i64));
                            assert forall|x: int| 0 <= x < before.len() implies transitions@[x] == before[x] by {}
                            assert forall|kk: int| 1 <= kk < subsets@.len() implies #[trigger] entered_seq(transitions@, kk) by {
                                if entered_seq(before, kk) {
                                    let x = choose|x: int| 0 <= x < before.len() && before[x].2 == kk && before[x].0 < kk;
                                    assert(transitions@[x] == before[x]);
                                } else {
                                    assert(transitions@[before.len() as int].2 == kk);
                                }
                            }
                        },
                        None => {},
                    }
                } else {
                    assert(img@.to_set() =~= Set::<i64>::empty());
                }
                j += 1;
            }
            assert forall|k: int, c: char|
                0 <= k < i + 1 && a.symbols.contains(c) && !(#[trigger] image(a, subsets@[k]@.to_set(), c)).is_empty() && subsets@.len() < MAX_SUBSETS
                    implies exists|x: int| 0 <= x < transitions@.len() && (#[trigger] transitions@[x]).0 == k && transitions@[x].1 == c by {
                if k == i {
                    let b = choose|b: int| 0 <= b < self.alphabet@.len() && self.alphabet@[b] == c;
                    assert(!image(a, subsets@[i as int]@.to_set(), self.alphabet@[b]).is_empty());
                }
            }
            i += 1;
        }
        assert(i == subsets@.len());
        assert forall|k: int, c: char|
            0 <= k < subsets@.len() && self@.symbols.contains(c) && !(#[trigger] image(self@, subsets@[k]@.to_set(), c)).is_empty() && subsets@.len() < MAX_SUBSETS
                implies exists|x: int| 0 <= x < transitions@.len() && (#[trigger] transitions@[x]).0 == k && transitions@[x].1 == c by {
            assert(0 <= k < i && a.symbols.contains(c) && !image(a, subsets@[k]@.to_set(), c).is_empty());
        }
        let ghost sv = subsets@;
        let ghost tv = transitions@;
        let res = (subsets, transitions);
        assert(res.0@ == sv);
        assert(res.1@ == tv);
        assert(res.0@.len() < MAX_SUBSETS ==> forall|k: int, c: char|
            0 <= k < res.0@.len() && self@.symbols.contains(c) && !(#[trigger] image(self@, res.0@[k]@.to_set(), c)).is_empty()
                ==> exists|x: int| 0 <= x < res.1@.len() && (#[trigger] res.1@[x]).0 == k && res.1@[x].1 == c);
        res
    }

    /// The subset construction of `other`: a deterministic automaton whose states
    /// stand for the sets of states of `other` reachable from the epsilon-closure of
    /// its initial states (all of them: several initial states are one start set).
    /// A symbol whose image is empty gets no transition, so the result need not be
    /// complete.
    #[verifier::rlimit(60)]
    pub fn create_deterministic(other: &Automate) -> (r: Automate)
        requires
            other.wf(),
        ensures
            r.wf(),
            r@.deterministic(),
            r@.states.len() < i64::MAX,
            r@.accessible() == r@.states,
            r@.states.len() <= pow2(other@.states.len()),
            exists|sets: Seq<Set<i64>>| subset_automaton(other@, r@, sets),
    {
        let ghost a = other@;
        let (subsets, transitions) = other.explore_subsets();
        let n = subsets.len();
        let mut states: Vec<i64> = Vec::new();
        let mut finals: Vec<i64> = Vec::new();
        let mut k: usize = 0;
        while k < n
            invariant
                other.wf(),
                a == other@,
                n == subsets@.len() <= MAX_SUBSETS,
                k <= n,
                states@.len() == k,
                forall|x: int| 0 <= x < k ==> #[trigger] states@[x] == x,
                finals@.no_duplicates(),
                forall|q: i64| #[trigger] finals@.contains(q) ==> 0 <= q < k,
                forall|q: i64| 0 <= q < k ==> (#[trigger] finals@.contains(q) <==> exists|p: i64|
                    #[trigger] subsets@[q as int]@.contains(p) && a.finals.contains(p)),
            decreases n - k,
        {
            states.push(k as i64);
            let hit = other.meets_final(&subsets[k]);
            if hit {
                proof {
                    vecset::lemma_push_contains(finals@, k as i64);
                }
                finals.push(k as i64);
            }
            proof {
                vecset::lemma_push_contains(finals@, k as i64);
            }
            assert forall|q: i64| 0 <= q < k + 1 implies (#[trigger] finals@.contains(q) <==> exists|p: i64|
                #[trigger] subsets@[q as int]@.contains(p) && a.finals.contains(p)) by {
                if q == k {
                    if hit {
                        let p = choose|p: i64| #[trigger] subsets@[k as int]@.contains(p) && a.finals.contains(p);
                        assert(subsets@[q as int]@.contains(p));
                    }
                }
            }
            k += 1;
        }
        let mut initial_state: Vec<i64> = Vec::new();
        initial_state.push(0);
        let r = Automate {
            alphabet: vecset::copy_symbols(&other.alphabet),
            states,
            initial_state,
            final_states: finals,
            transitions,
        };
        let ghost sets = Seq::new(n as nat, |x: int| subsets@[x]@.to_set());
        proof {
            assert(r@.states =~= below(n as int)) by {
                assert forall|q: i64| #[trigger] r@.states.contains(q) <==> 0 <= q < n by {
                    if 0 <= q < n {
                        assert(r.states@[q as int] == q);
                    }
                }
            }
            lemma_below_len(n as int);
            assert(r.states@.no_duplicates()) by {
                assert forall|x: int, y: int| 0 <= x < y < r.states@.len() implies r.states@[x] != r.states@[y] by {
                    assert(r.states@[x] == x && r.states@[y] == y);
                }
            }
            vecset::lemma_len(r.states@);
            assert(r.transitions@.no_duplicates()) by {
                assert forall|x: int, y: int| 0 <= x < y < r.transitions@.len() implies r.transitions@[x] != r.transitions@[y] by {
                    assert(r.transitions@[x].0 != r.transitions@[y].0 || r.transitions@[x].1 != r.transitions@[y].1);
                }
            }
            assert(r@.initials =~= set![0i64]) by {
                vecset::lemma_push_contains(Seq::<i64>::empty(), 0i64);
                assert(r.initial_state@ =~= Seq::<i64>::empty().push(0i64));
            }
            assert(r@.initials.len() == 1);
            assert forall|t: Transition| #[trigger] r@.transitions.contains(t) implies {
                &&& a.symbols.contains(t.1)
                &&& r@.states.contains(t.0)
                &&& r@.states.contains(t.2)
                &&& sets[t.2 as int] == image(a, sets[t.0 as int], t.1)
            } by {
                let x = choose|x: int| 0 <= x < r.transitions@.len() && r.transitions@[x] == t;
                assert(0 <= (r.transitions@[x]).0 < n);
            }
            assert forall|t: Transition| #[trigger] r@.transitions.contains(t) implies t.1 != EPSILON by {
                assert(a.symbols.contains(t.1));
            }
            assert forall|p: i64, c: char, q1: i64, q2: i64|
                #[trigger] r@.transitions.contains((p, c, q1)) && #[trigger] r@.transitions.contains((p, c, q2)) implies q1 == q2 by {
                let x = choose|x: int| 0 <= x < r.transitions@.len() && r.transitions@[x] == (p, c, q1);
                let y = choose|y: int| 0 <= y < r.transitions@.len() && r.transitions@[y] == (p, c, q2);
                if x < y {
                    assert(r.transitions@[x].0 != r.transitions@[y].0 || r.transitions@[x].1 != r.transitions@[y].1);
                } else if y < x {
                    assert(r.transitions@[y].0 != r.transitions@[x].0 || r.transitions@[y].1 != r.transitions@[x].1);
                }
            }
            assert forall|q: i64| #[trigger] r@.finals.contains(q) implies r@.states.contains(q) by {}
            assert forall|x: int| 0 <= x < sets.len() implies (#[trigger] sets[x]).subset_of(a.states) by {
                assert(subsets@[x]@.to_set().subset_of(a.states));
            }
            assert forall|q: i64| 0 <= q < sets.len() implies (#[trigger] r@.finals.contains(q) <==> exists|p: i64|
                #[trigger] sets[q as int].contains(p) && a.finals.contains(p)) by {
                if r@.finals.contains(q) {
                    let p = choose|p: i64| #[trigger] subsets@[q as int]@.contains(p) && a.finals.contains(p);
                    assert(sets[q as int].contains(p));
                }
                if exists|p: i64| #[trigger] sets[q as int].contains(p) && a.finals.contains(p) {
                    let p = choose|p: i64| #[trigger] sets[q as int].contains(p) && a.finals.contains(p);
                    assert(subsets@[q as int]@.contains(p));
                }
            }
            if sets.len() < MAX_SUBSETS {
                assert forall|q: i64, c: char|
                    0 <= q < sets.len() && a.symbols.contains(c) && !image(a, sets[q as int], c).is_empty()
                        implies #[trigger] r@.has_succ(q, c) by {
                    assert(!image(a, subsets@[q as int]@.to_set(), c).is_empty());
                    let x = choose|x: int| 0 <= x < r.transitions@.len() && (#[trigger] r.transitions@[x]).0 == q && r.transitions@[x].1 == c;
                    assert(r@.transitions.contains((q, c, r.transitions@[x].2)));
                }
            }
            assert(sets[0] == closure(Edges::Epsilon, a.transitions, a.initials));
            assert forall|x: int, y: int| 0 <= x < y < sets.len() implies #[trigger] sets[x] != #[trigger] sets[y] by {
                assert(subsets@[x]@.to_set() != subsets@[y]@.to_set());
            }
            assert forall|t: Transition| #[trigger] r@.transitions.contains(t) implies !sets[t.2 as int].is_empty() by {
                let x = choose|x: int| 0 <= x < r.transitions@.len() && r.transitions@[x] == t;
                assert(subsets@[t.2 as int]@.len() > 0);
                assert(sets[t.2 as int].contains(subsets@[t.2 as int]@[0]));
            }
            assert forall|k: i64| 0 < k < sets.len() implies #[trigger] entered(r@, k) by {
                assert(entered_seq(r.transitions@, k as int));
                let x = choose|x: int| 0 <= x < r.transitions@.len() && r.transitions@[x].2 == k && r.transitions@[x].0 < k;
                let t = r.transitions@[x];
                assert(r@.transitions.contains((t.0, t.1, k)));
            }
            assert(subset_automaton(a, r@, sets));
            lemma_subset_accessible(a, r@, sets);
            lemma_subset_count(a, r@, sets);
        }
        r
    }

    /// `other` with its final and non-final states swapped.
    fn flip_finals(other: &Automate) -> (r: Automate)
        requires
            other.wf(),
        ensures
            r.wf(),
            r@ == complement_of(other@),
    {
        let r = Automate {
            alphabet: vecset::copy_symbols(&other.alphabet),
            states: vecset::copy_states(&other.states),
            initial_state: vecset::copy_states(&other.initial_state),
            final_states: vecset::difference(&other.states, &other.final_states),
            transitions: vecset::copy_transitions(&other.transitions),
        };
        proof {
            vecset::lemma_len(r.states@);
            vecset::lemma_len(r.transitions@);
        }
        r
    }

    /// The complement of `other`: a deterministic and complete automaton is kept
    /// with its final and non-final states swapped; any other is first made
    /// deterministic, then complete.
    pub fn create_complement(other: &Automate) -> (r: Automate)
        requires
            other.wf(),
        ensures
            r.wf(),
            complement_spec(other@, r@),
    {
        if other.is_deteministic() && other.is_complete() {
            proof {
                lemma_complement_keeps(other@);
            }
            return Automate::flip_finals(other);
        }
        let d = Automate::create_deterministic(other);
        let c = Automate::create_complete(&d);
        let r = Automate::flip_finals(&c);
        proof {
            lemma_complement_keeps(c@);
        }
        assert(c@ == completed(d@));
        r
    }

    /// A complete automaton with the language of `other`: `other` itself when it is
    /// complete, else `other` with a non-final sink state that takes every missing
    /// transition.
    #[verifier::rlimit(60)]
    pub fn create_complete(other: &Automate) -> (r: Automate)
        requires
            other.wf(),
            other@.states.len() < i64::MAX,
        ensures
            r.wf(),
            other@.complete() ==> r@ == other@,
            !other@.complete() ==> r@ == completion_of(other@, first_free(other@.states)),
            r@.complete(),
            other@.deterministic() ==> r@.deterministic(),
    {
        if other.is_complete() {
            return Automate::copy(other);
        }
        let sink = other.fresh_state();
        let ghost a = other@;
        let mut states = vecset::copy_states(&other.states);
        proof {
            vecset::lemma_push_contains(states@, sink);
        }
        states.push(sink);
        assert(states@.to_set() =~= a.states.insert(sink));
        let mut transitions = vecset::copy_transitions(&other.transitions);
        assert(missing(a, sink, states@.subrange(0, 0).to_set()) =~= Set::<Transition>::empty());
        assert(transitions@.to_set() =~= a.transitions.union(Set::<Transition>::empty()));
        let mut i: usize = 0;
        while i < states.len()
            invariant
                other.wf(),
                a == other@,
                i <= states.len(),
                transitions@.no_duplicates(),
                transitions@.to_set() == a.transitions.union(
                    missing(a, sink, states@.subrange(0, i as int).to_set()),
                ),
            decreases states.len() - i,
        {
            other.add_missing(&mut transitions, states[i], sink);
            assert(missing(a, sink, states@.subrange(0, i + 1).to_set()) =~= missing(
                a,
                sink,
                states@.subrange(0, i as int).to_set(),
            ).union(missing(a, sink, set![states@[i as int]]))) by {
                vecset::lemma_prefix_contains(states@, i as int);
            }
            assert(transitions@.to_set() =~= a.transitions.union(
                missing(a, sink, states@.subrange(0, i + 1).to_set()),
            ));
            i += 1;
        }
        assert(states@.subrange(0, states@.len() as int) =~= states@);
        let r = Automate {
            alphabet: vecset::copy_symbols(&other.alphabet),
            states,
            initial_state: vecset::copy_states(&other.initial_state),
            final_states: vecset::copy_states(&other.final_states),
            transitions,
        };
        proof {
            lemma_completion(a, sink);
        }
        assert(r@.states == completion_of(a, sink).states);
        assert(r@.transitions == completion_of(a, sink).transitions);
        proof {
            vecset::lemma_len(r.states@);
            vecset::lemma_len(r.transitions@);
        }
        r
    }
}

} // verus!
