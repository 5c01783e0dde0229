//! The automaton: its store, structural queries, traversals and transforms.
pub mod product;
mod minimize;
pub mod transform;
mod traversal;

use vstd::prelude::*;
use crate::model::{EPSILON, Edges, Transition, closure, is_symbol, run};
use crate::vecset;

verus! {

/// What an automaton is, as sets.
pub struct AutomatonView {
    pub symbols: Set<char>,
    pub states: Set<i64>,
    pub initials: Set<i64>,
    pub finals: Set<i64>,
    pub transitions: Set<Transition>,
}

impl AutomatonView {
    /// Every transition, initial and final state refers to known states and symbols;
    /// symbols are printable and states are non-negative.
    pub open spec fn wf(self) -> bool {
        &&& self.symbols.finite()
        &&& self.states.finite()
        &&& self.transitions.finite()
        &&& forall|c: char| #[trigger] self.symbols.contains(c) ==> is_symbol(c)
        &&& forall|s: i64| #[trigger] self.states.contains(s) ==> s >= 0
        &&& self.initials.subset_of(self.states)
        &&& self.finals.subset_of(self.states)
        &&& forall|t: Transition| #[trigger] self.transitions.contains(t) ==> {
            &&& self.states.contains(t.0)
            &&& self.states.contains(t.2)
            &&& (t.1 == EPSILON || self.symbols.contains(t.1))
        }
    }

    /// At least one symbol and one state.
    pub open spec fn valid(self) -> bool {
        self.symbols.len() > 0 && self.states.len() > 0
    }

    /// Adding the symbol `c` to `self` gives `new` and reports `r`: it succeeds iff
    /// `c` is a printable, non-whitespace character not yet there, and otherwise
    /// changes nothing.
    pub open spec fn adds_symbol(self, new: Self, c: char, r: bool) -> bool {
        &&& r == (is_symbol(c) && !self.symbols.contains(c))
        &&& new == if r {
            AutomatonView { symbols: self.symbols.insert(c), ..self }
        } else {
            self
        }
    }

    /// Adding the state `s` to `self` gives `new` and reports `r`: it succeeds iff
    /// `s` is non-negative and not yet there, and otherwise changes nothing.
    pub open spec fn adds_state(self, new: Self, s: i64, r: bool) -> bool {
        &&& r == (s >= 0 && !self.states.contains(s))
        &&& new == if r {
            AutomatonView { states: self.states.insert(s), ..self }
        } else {
            self
        }
    }

    /// Adding the transition `t` to `self` gives `new` and reports `r`: it succeeds
    /// iff both ends are states, the label is epsilon or a symbol, and `t` is not yet
    /// there; otherwise it changes nothing.
    pub open spec fn adds_transition(self, new: Self, t: Transition, r: bool) -> bool {
        &&& r == (self.states.contains(t.0) && self.states.contains(t.2) && (t.1 == EPSILON
            || self.symbols.contains(t.1)) && !self.transitions.contains(t))
        &&& new == if r {
            AutomatonView { transitions: self.transitions.insert(t), ..self }
        } else {
            self
        }
    }

    /// Some transition is labelled with epsilon.
    pub open spec fn has_epsilon(self) -> bool {
        exists|t: Transition| #[trigger] self.transitions.contains(t) && t.1 == EPSILON
    }

    /// One initial state, no epsilon transition, and at most one transition for
    /// each state and symbol.
    pub open spec fn deterministic(self) -> bool {
        &&& self.initials.len() == 1
        &&& !self.has_epsilon()
        &&& forall|p: i64, c: char, q1: i64, q2: i64|
            #[trigger] self.transitions.contains((p, c, q1)) && #[trigger] self.transitions.contains(
                (p, c, q2),
            ) ==> q1 == q2
    }

    /// Some transition labelled `c` leaves `p`.
    pub open spec fn has_succ(self, p: i64, c: char) -> bool {
        exists|q: i64| #[trigger] self.transitions.contains((p, c, q))
    }

    /// Every state has a transition on every symbol.
    pub open spec fn complete(self) -> bool {
        forall|p: i64, c: char|
            self.states.contains(p) && self.symbols.contains(c) ==> #[trigger] self.has_succ(p, c)
    }

    /// The states reachable from an initial state.
    pub open spec fn accessible(self) -> Set<i64> {
        closure(Edges::Forward, self.transitions, self.initials)
    }

    /// The states from which a final state is reachable.
    pub open spec fn co_accessible(self) -> Set<i64> {
        closure(Edges::Backward, self.transitions, self.finals)
    }

    /// The states reached by reading `w`; none when the automaton is not valid.
    pub open spec fn read(self, w: Seq<char>) -> Set<i64> {
        if self.valid() {
            run(self.transitions, self.initials, w)
        } else {
            Set::empty()
        }
    }

    /// The word `w` belongs to the language.
    pub open spec fn accepts(self, w: Seq<char>) -> bool {
        exists|q: i64| #[trigger] self.read(w).contains(q) && self.finals.contains(q)
    }

    /// The language is empty: no final state is reachable.
    pub open spec fn language_empty(self) -> bool {
        !exists|q: i64| #[trigger] self.accessible().contains(q) && self.finals.contains(q)
    }
}

/// A finite automaton: an alphabet, a set of states, initial and final states, and
/// transitions labelled with a symbol or with epsilon.
pub struct Automate {
    alphabet: Vec<char>,
    states: Vec<i64>,
    initial_state: Vec<i64>,
    final_states: Vec<i64>,
    transitions: Vec<Transition>,
}

impl View for Automate {
    type V = AutomatonView;

    closed spec fn view(&self) -> AutomatonView {
        AutomatonView {
            symbols: self.alphabet@.to_set(),
            states: self.states@.to_set(),
            initials: self.initial_state@.to_set(),
            finals: self.final_states@.to_set(),
            transitions: self.transitions@.to_set(),
        }
    }
}

impl Automate {
    /// The label of a transition that consumes no input.
    pub const EPSILON: char = EPSILON;

    /// The state at position `i` in the automaton's own numbering of its states.
    pub closed spec fn state_at(&self, i: int) -> i64 {
        self.states@[i]
    }

    /// Every state has a position below the number of states.
    pub proof fn lemma_state_at(&self)
        requires
            self.wf(),
        ensures
            forall|p: i64| #[trigger] self@.states.contains(p) <==> exists|i: int|
                0 <= i < self@.states.len() && self.state_at(i) == p,
            forall|i: int| 0 <= i < self@.states.len() ==> self@.states.contains(#[trigger] self.state_at(i)),
            forall|i: int, k: int| 0 <= i < self@.states.len() && 0 <= k < self@.states.len() && #[trigger] self.state_at(i) == #[trigger] self.state_at(k) ==> i == k,
    {
        vecset::lemma_len(self.states@);
        assert forall|p: i64| #[trigger] self@.states.contains(p) implies exists|i: int|
            0 <= i < self@.states.len() && self.state_at(i) == p by {
            let i = choose|i: int| 0 <= i < self.states@.len() && self.states@[i] == p;
            assert(self.state_at(i) == p);
        }
    }

    /// A well-formed automaton has a well-formed view: printable symbols,
    /// non-negative states, and marks and transitions among known states.
    pub proof fn lemma_wf(&self)
        requires
            self.wf(),
        ensures
            self@.wf(),
    {
    }

    /// The automaton is well formed (see `AutomatonView::wf`).
    pub closed spec fn wf(&self) -> bool {
        &&& self.alphabet@.no_duplicates()
        &&& self.states@.no_duplicates()
        &&& self.initial_state@.no_duplicates()
        &&& self.final_states@.no_duplicates()
        &&& self.transitions@.no_duplicates()
        &&& self@.wf()
    }

    /// An empty automaton: no symbol, no state.
    pub fn new() -> (r: Automate)
        ensures
            r.wf(),
            r@ == (AutomatonView {
                symbols: Set::empty(),
                states: Set::empty(),
                initials: Set::empty(),
                finals: Set::empty(),
                transitions: Set::empty(),
            }),
    {
        let r = Automate {
            alphabet: Vec::new(),
            states: Vec::new(),
            initial_state: Vec::new(),
            final_states: Vec::new(),
            transitions: Vec::new(),
        };
        assert(r@.symbols =~= Set::<char>::empty());
        assert(r@.states =~= Set::<i64>::empty());
        assert(r@.initials =~= Set::<i64>::empty());
        assert(r@.finals =~= Set::<i64>::empty());
        assert(r@.transitions =~= Set::<Transition>::empty());
        r
    }

    /// The automaton holds at least one symbol and one state.
    pub fn is_valid(&self) -> (r: bool)
        requires
            self.wf(),
        ensures
            r == self@.valid(),
    {
        proof {
            vecset::lemma_len(self.alphabet@);
            vecset::lemma_len(self.states@);
        }
        self.alphabet.len() > 0 && self.states.len() > 0
    }

    /// Adds a symbol; true iff it is printable, not whitespace, and was not there.
    pub fn add_symbol(&mut self, symbol: char) -> (r: bool)
        requires
            old(self).wf(),
        ensures
            final(self).wf(),
            old(self)@.adds_symbol(final(self)@, symbol, r),
    {
        if vecset::has_symbol(&self.alphabet, symbol) || !is_symbol_char(symbol) {
            return false;
        }
        proof {
            vecset::lemma_push_contains(self.alphabet@, symbol);
        }
        self.alphabet.push(symbol);
        assert(self@.symbols =~= old(self)@.symbols.insert(symbol));
        true
    }

    /// Removes a symbol and every transition labelled with it; true iff it was there.
    pub fn remove_symbol(&mut self, symbol: char) -> (r: bool)
        requires
            old(self).wf(),
        ensures
            final(self).wf(),
            r == old(self)@.symbols.contains(symbol),
            final(self)@ == if r {
                AutomatonView {
                    symbols: old(self)@.symbols.remove(symbol),
                    transitions: old(self)@.transitions.filter(|t: Transition| t.1 != symbol),
                    ..old(self)@
                }
            } else {
                old(self)@
            },
    {
        if !vecset::has_symbol(&self.alphabet, symbol) {
            return false;
        }
        let mut alphabet: Vec<char> = Vec::new();
        let mut i: usize = 0;
        while i < self.alphabet.len()
            invariant
                i <= self.alphabet.len(),
                self.alphabet@.no_duplicates(),
                alphabet@.no_duplicates(),
                forall|y: char| #[trigger] alphabet@.contains(y) ==> exists|j: int| 0 <= j < i && self.alphabet@[j] == y,
                forall|j: int| 0 <= j < i ==> (#[trigger] alphabet@.contains(self.alphabet@[j]) <==> self.alphabet@[j] != symbol),
            decreases self.alphabet.len() - i,
        {
            let c = self.alphabet[i];
            if c != symbol {
                proof {
                    vecset::lemma_push_contains(alphabet@, c);
                    assert(!alphabet@.contains(c));
                }
                alphabet.push(c);
            }
            i += 1;
        }
        assert(alphabet@.to_set() =~= old(self)@.symbols.remove(symbol));
        self.alphabet = alphabet;
        self.transitions = vecset::drop_label(&self.transitions, symbol);
        assert(self@.transitions =~= old(self)@.transitions.filter(|t: Transition| t.1 != symbol));
        true
    }

    /// True iff the symbol belongs to the alphabet.
    pub fn has_symbol(&self, symbol: char) -> (r: bool)
        requires
            self.wf(),
        ensures
            r == self@.symbols.contains(symbol),
    {
        if !is_symbol_char(symbol) {
            return false;
        }
        vecset::has_symbol(&self.alphabet, symbol)
    }

    /// The number of symbols.
    pub fn count_symbols(&self) -> (r: i64)
        requires
            self.wf(),
        ensures
            r == self@.symbols.len() as i64,
    {
        proof {
            vecset::lemma_len(self.alphabet@);
        }
        self.alphabet.len() as i64
    }

    /// Adds a state; true iff it is non-negative and was not there.
    pub fn add_state(&mut self, state: i64) -> (r: bool)
        requires
            old(self).wf(),
        ensures
            final(self).wf(),
            old(self)@.adds_state(final(self)@, state, r),
    {
        if state < 0 || vecset::has_state(&self.states, state) {
            return false;
        }
        proof {
            vecset::lemma_push_contains(self.states@, state);
        }
        self.states.push(state);
        assert(self@.states =~= old(self)@.states.insert(state));
        true
    }

    /// Removes a state, its initial and final marks and every transition from or to
    /// it; true iff it was there.
    pub fn remove_state(&mut self, state: i64) -> (r: bool)
        requires
            old(self).wf(),
        ensures
            final(self).wf(),
            r == old(self)@.states.contains(state),
            final(self)@ == (AutomatonView {
                states: old(self)@.states.remove(state),
                initials: old(self)@.initials.remove(state),
                finals: old(self)@.finals.remove(state),
                transitions: old(self)@.transitions.filter(
                    |t: Transition| t.0 != state && t.2 != state,
                ),
                ..old(self)@
            }),
    {
        let r = vecset::has_state(&self.states, state);
        let keep = vecset::remove_value(&self.states, state);
        self.restrict_to(&keep);
        assert(self@.states =~= old(self)@.states.remove(state));
        assert(self@.initials =~= old(self)@.initials.remove(state));
        assert(self@.finals =~= old(self)@.finals.remove(state));
        assert forall|t: Transition| #[trigger] old(self)@.transitions.contains(t) implies old(
            self,
        )@.states.contains(t.0) && old(self)@.states.contains(t.2) by {}
        assert forall|t: Transition| #[trigger] self@.transitions.contains(t) <==> old(
            self,
        )@.transitions.contains(t) && t.0 != state && t.2 != state by {
            assert(keep@.to_set().contains(t.0) == keep@.contains(t.0));
            assert(keep@.to_set().contains(t.2) == keep@.contains(t.2));
        }
        assert(self@.transitions =~= old(self)@.transitions.filter(
            |t: Transition| t.0 != state && t.2 != state,
        ));
        r
    }

    /// Keeps only the states that `keep` holds, with the marks and transitions
    /// among them.
    fn restrict_to(&mut self, keep: &Vec<i64>)
        requires
            old(self).wf(),
        ensures
            final(self).wf(),
            final(self)@ == (AutomatonView {
                states: old(self)@.states.intersect(keep@.to_set()),
                initials: old(self)@.initials.intersect(keep@.to_set()),
                finals: old(self)@.finals.intersect(keep@.to_set()),
                transitions: old(self)@.transitions.filter(
                    |t: Transition| keep@.contains(t.0) && keep@.contains(t.2),
                ),
                ..old(self)@
            }),
    {
        self.states = vecset::intersect(&self.states, keep);
        self.initial_state = vecset::intersect(&self.initial_state, keep);
        self.final_states = vecset::intersect(&self.final_states, keep);
        self.transitions = vecset::within(&self.transitions, keep);
        assert(self@.transitions =~= old(self)@.transitions.filter(
            |t: Transition| keep@.contains(t.0) && keep@.contains(t.2),
        ));
        proof {
            vecset::lemma_len(self.states@);
            vecset::lemma_len(self.transitions@);
        }
    }

    /// True iff the state belongs to the automaton.
    pub fn has_state(&self, state: i64) -> (r: bool)
        requires
            self.wf(),
        ensures
            r == self@.states.contains(state),
    {
        vecset::has_state(&self.states, state)
    }

    /// The number of states.
    pub fn count_states(&self) -> (r: i64)
        requires
            self.wf(),
        ensures
            r == self@.states.len() as i64,
    {
        proof {
            vecset::lemma_len(self.states@);
        }
        self.states.len() as i64
    }

    /// Marks a known state as initial; an unknown state is left alone.
    pub fn set_state_initial(&mut self, state: i64)
        requires
            old(self).wf(),
        ensures
            final(self).wf(),
            final(self)@ == (AutomatonView {
                initials: if old(self)@.states.contains(state) {
                    old(self)@.initials.insert(state)
                } else {
                    old(self)@.initials
                },
                ..old(self)@
            }),
    {
        if vecset::has_state(&self.states, state) {
            vecset::insert_state(&mut self.initial_state, state);
        }
    }

    /// True iff the state is marked initial.
    pub fn is_state_initial(&self, state: i64) -> (r: bool)
        requires
            self.wf(),
        ensures
            r == self@.initials.contains(state),
    {
        vecset::has_state(&self.initial_state, state)
    }

    /// Marks a known state as final; an unknown state is left alone.
    pub fn set_state_final(&mut self, state: i64)
        requires
            old(self).wf(),
        ensures
            final(self).wf(),
            final(self)@ == (AutomatonView {
                finals: if old(self)@.states.contains(state) {
                    old(self)@.finals.insert(state)
                } else {
                    old(self)@.finals
                },
                ..old(self)@
            }),
    {
        if vecset::has_state(&self.states, state) {
            vecset::insert_state(&mut self.final_states, state);
        }
    }

    /// True iff the state is marked final.
    pub fn is_state_final(&self, state: i64) -> (r: bool)
        requires
            self.wf(),
        ensures
            r == self@.finals.contains(state),
    {
        vecset::has_state(&self.final_states, state)
    }

    /// Adds a transition between known states, on a known symbol or on epsilon;
    /// true iff it was added.
    pub fn add_transition(&mut self, from: i64, symbol: char, to: i64) -> (r: bool)
        requires
            old(self).wf(),
        ensures
            final(self).wf(),
            old(self)@.adds_transition(final(self)@, (from, symbol, to), r),
    {
        if !vecset::has_state(&self.states, from) || !vecset::has_state(&self.states, to) {
            return false;
        }
        if symbol != EPSILON && !vecset::has_symbol(&self.alphabet, symbol) {
            return false;
        }
        if vecset::has_transition(&self.transitions, (from, symbol, to)) {
            return false;
        }
        vecset::insert_transition(&mut self.transitions, (from, symbol, to));
        true
    }

    /// Removes a transition; true iff it was there.
    pub fn remove_transition(&mut self, from: i64, symbol: char, to: i64) -> (r: bool)
        requires
            old(self).wf(),
        ensures
            final(self).wf(),
            r == old(self)@.transitions.contains((from, symbol, to)),
            final(self)@ == (AutomatonView {
                transitions: old(self)@.transitions.remove((from, symbol, to)),
                ..old(self)@
            }),
    {
        let r = vecset::has_transition(&self.transitions, (from, symbol, to));
        self.transitions = vecset::drop_transition(&self.transitions, (from, symbol, to));
        assert(self@.transitions =~= old(self)@.transitions.remove((from, symbol, to)));
        proof {
            vecset::lemma_len(self.transitions@);
        }
        r
    }

    /// True iff the automaton holds the transition.
    pub fn has_transition(&self, from: i64, symbol: char, to: i64) -> (r: bool)
        requires
            self.wf(),
        ensures
            r == self@.transitions.contains((from, symbol, to)),
    {
        vecset::has_transition(&self.transitions, (from, symbol, to))
    }

    /// The number of transitions.
    pub fn count_transitions(&self) -> (r: i64)
        requires
            self.wf(),
        ensures
            r == self@.transitions.len() as i64,
    {
        proof {
            vecset::lemma_len(self.transitions@);
        }
        self.transitions.len() as i64
    }
}

/// True iff `c` is a printable, non-whitespace ASCII character.
pub fn is_symbol_char(c: char) -> (r: bool)
    ensures
        r == is_symbol(c),
{
    33 <= (c as u32) && (c as u32) <= 126
}

} // verus!
