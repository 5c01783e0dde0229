//! Structural queries and traversals.
use vstd::prelude::*;
use crate::automate::Automate;
use crate::automate::AutomatonView;
use crate::model::{EPSILON, Edges, Transition, closed_under, closure, edge, edge_via, run, step};
use vstd::string::StrSliceExecFns;
use crate::vecset;

verus! {

/// The other end of `t` when it is an edge of kind `mode` leaving `p`.
fn edge_target(mode: Edges, t: Transition, p: i64) -> (r: Option<i64>)
    ensures
        match r {
            Some(q) => edge_via(mode, t, p, q),
            None => forall|q: i64| !edge_via(mode, t, p, q),
        },
{
    match mode {
        Edges::Epsilon => if t.0 == p && t.1 == EPSILON {
            Some(t.2)
        } else {
            None
        },
        Edges::Forward => if t.0 == p {
            Some(t.2)
        } else {
            None
        },
        Edges::Backward => if t.2 == p {
            Some(t.0)
        } else {
            None
        },
    }
}

impl Automate {

    /// True iff some transition is labelled with epsilon.
    pub fn has_epsilon_transition(&self) -> (r: bool)
        requires
            self.wf(),
        ensures
            r == self@.has_epsilon(),
    {
        let mut i: usize = 0;
        while i < self.transitions.len()
            invariant
                i <= self.transitions.len(),
                forall|j: int| 0 <= j < i ==> self.transitions@[j].1 != EPSILON,
            decreases self.transitions.len() - i,
        {
            if self.transitions[i].1 == EPSILON {
                assert(self@.transitions.contains(self.transitions@[i as int]));
                return true;
            }
            i += 1;
        }
        false
    }

    /// True iff the automaton has one initial state, no epsilon transition, and at
    /// most one transition for each state and symbol.
    pub fn is_deteministic(&self) -> (r: bool)
        requires
            self.wf(),
        ensures
            r == self@.deterministic(),
    {
        proof {
            vecset::lemma_len(self.initial_state@);
        }
        if self.initial_state.len() != 1 || self.has_epsilon_transition() {
            return false;
        }
        let n = self.transitions.len();
        let mut i: usize = 0;
        while i < n
            invariant
                n == self.transitions.len(),
                i <= n,
                forall|a: int, b: int|
                    0 <= a < i && 0 <= b < n && (#[trigger] self.transitions@[a]).0 == (
                    #[trigger] self.transitions@[b]).0 && self.transitions@[a].1
                        == self.transitions@[b].1 ==> self.transitions@[a].2 == self.transitions@[b].2,
            decreases n - i,
        {
            let mut j: usize = 0;
            while j < n
                invariant
                    n == self.transitions.len(),
                    i < n,
                    j <= n,
                    forall|a: int, b: int|
                        0 <= a < i && 0 <= b < n && (#[trigger] self.transitions@[a]).0 == (
                        #[trigger] self.transitions@[b]).0 && self.transitions@[a].1
                            == self.transitions@[b].1 ==> self.transitions@[a].2 == self.transitions@[b].2,
                    forall|b: int|
                        0 <= b < j && self.transitions@[i as int].0 == (
                        #[trigger] self.transitions@[b]).0 && self.transitions@[i as int].1
                            == self.transitions@[b].1 ==> self.transitions@[i as int].2 == self.transitions@[b].2,
                decreases n - j,
            {
                let a = self.transitions[i];
                let b = self.transitions[j];
                if a.0 == b.0 && a.1 == b.1 && a.2 != b.2 {
                    assert(self@.transitions.contains(a));
                    assert(self@.transitions.contains((b.0, b.1, b.2)));
                    return false;
                }
                j += 1;
            }
            i += 1;
        }
        assert forall|p: i64, c: char, q1: i64, q2: i64|
            #[trigger] self@.transitions.contains((p, c, q1)) && #[trigger] self@.transitions.contains(
                (p, c, q2),
            ) implies q1 == q2 by {
            let a = choose|a: int| 0 <= a < n && self.transitions@[a] == (p, c, q1);
            let b = choose|b: int| 0 <= b < n && self.transitions@[b] == (p, c, q2);
            assert(self.transitions@[a].0 == self.transitions@[b].0);
        }
        true
    }

    /// True iff every state has a transition on every symbol.
    pub fn is_complete(&self) -> (r: bool)
        requires
            self.wf(),
        ensures
            r == self@.complete(),
    {
        let mut i: usize = 0;
        while i < self.states.len()
            invariant
                self.wf(),
                i <= self.states.len(),
                forall|a: int, c: char|
                    0 <= a < i && self@.symbols.contains(c) ==> #[trigger] self@.has_succ(self.states@[a], c),
            decreases self.states.len() - i,
        {
            let p = self.states[i];
            let mut j: usize = 0;
            while j < self.alphabet.len()
                invariant
                    self.wf(),
                    i < self.states.len(),
                    p == self.states@[i as int],
                    j <= self.alphabet.len(),
                    forall|a: int, c: char|
                        0 <= a < i && self@.symbols.contains(c) ==> #[trigger] self@.has_succ(self.states@[a], c),
                    forall|b: int| 0 <= b < j ==> #[trigger] self@.has_succ(p, self.alphabet@[b]),
                decreases self.alphabet.len() - j,
            {
                let c = self.alphabet[j];
                if !self.has_successor(p, c) {
                    assert(self@.states.contains(p));
                    assert(self@.symbols.contains(c));
                    return false;
                }
                j += 1;
            }
            assert forall|a: int, c: char| 0 <= a < i + 1 && self@.symbols.contains(c) implies #[trigger] self@.has_succ(self.states@[a], c) by {
                if a == i {
                    let b = choose|b: int| 0 <= b < self.alphabet@.len() && self.alphabet@[b] == c;
                    assert(self@.has_succ(p, self.alphabet@[b]));
                }
            }
            i += 1;
        }
        assert forall|p: i64, c: char| self@.states.contains(p) && self@.symbols.contains(c) implies #[trigger] self@.has_succ(p, c) by {
            let a = choose|a: int| 0 <= a < self.states@.len() && self.states@[a] == p;
            assert(self@.has_succ(self.states@[a], c));
        }
        true
    }

    /// True iff some transition labelled `c` leaves `p`.
    pub(crate) fn has_successor(&self, p: i64, c: char) -> (r: bool)
        requires
            self.wf(),
        ensures
            r == self@.has_succ(p, c),
    {
        let mut k: usize = 0;
        while k < self.transitions.len()
            invariant
                k <= self.transitions.len(),
                forall|kk: int| 0 <= kk < k ==> !(self.transitions@[kk].0 == p && self.transitions@[kk].1 == c),
            decreases self.transitions.len() - k,
        {
            let t = self.transitions[k];
            if t.0 == p && t.1 == c {
                assert(self@.transitions.contains((p, c, t.2)));
                return true;
            }
            k += 1;
        }
        assert forall|q: i64| !#[trigger] self@.transitions.contains((p, c, q)) by {
            if self@.transitions.contains((p, c, q)) {
                let kk = choose|kk: int| 0 <= kk < self.transitions@.len() && self.transitions@[kk] == (p, c, q);
            }
        }
        false
    }

    /// The states reached from some state of `origin` by exactly one transition
    /// labelled `symbol` (no epsilon-closure).
    pub fn make_transition(&self, origin: &Vec<i64>, symbol: char) -> (r: Vec<i64>)
        requires
            self.wf(),
        ensures
            r@.no_duplicates(),
            r@.to_set() == step(self@.transitions, origin@.to_set(), symbol),
            r@.to_set().subset_of(self@.states),
    {
        let mut r: Vec<i64> = Vec::new();
        let mut k: usize = 0;
        while k < self.transitions.len()
            invariant
                self.wf(),
                k <= self.transitions.len(),
                r@.no_duplicates(),
                forall|q: i64| #[trigger] r@.contains(q) ==> exists|kk: int|
                    0 <= kk < k && (#[trigger] self.transitions@[kk]).1 == symbol
                        && origin@.contains(self.transitions@[kk].0) && self.transitions@[kk].2 == q,
                forall|kk: int| 0 <= kk < k && (#[trigger] self.transitions@[kk]).1 == symbol
                    && origin@.contains(self.transitions@[kk].0) ==> r@.contains(self.transitions@[kk].2),
            decreases self.transitions.len() - k,
        {
            let t = self.transitions[k];
            if t.1 == symbol && vecset::has_state(origin, t.0) {
                let ghost old_r = r@;
                proof {
                    vecset::lemma_push_contains(r@, t.2);
                }
                vecset::insert_state(&mut r, t.2);
                assert forall|q: i64| #[trigger] r@.contains(q) <==> old_r.contains(q) || q == t.2 by {
                    assert(r@.to_set().contains(q) == r@.contains(q));
                    assert(old_r.to_set().contains(q) == old_r.contains(q));
                }
            }
            k += 1;
        }
        assert forall|q: i64| #[trigger] r@.to_set().contains(q) <==> step(self@.transitions, origin@.to_set(), symbol).contains(q) by {
            if r@.contains(q) {
                let kk = choose|kk: int|
                    0 <= kk < self.transitions@.len() && (#[trigger] self.transitions@[kk]).1 == symbol
                        && origin@.contains(self.transitions@[kk].0) && self.transitions@[kk].2 == q;
                assert(self@.transitions.contains(self.transitions@[kk]));
            }
            if step(self@.transitions, origin@.to_set(), symbol).contains(q) {
                let p = choose|p: i64| origin@.to_set().contains(p) && #[trigger] self@.transitions.contains((p, symbol, q));
                let kk = choose|kk: int| 0 <= kk < self.transitions@.len() && self.transitions@[kk] == (p, symbol, q);
            }
        }
        assert(r@.to_set() =~= step(self@.transitions, origin@.to_set(), symbol));
        r
    }
    /// The states reached by reading `string`: epsilon-closure of the initial
    /// states, then for each character one step followed by an epsilon-closure.
    /// Nothing is reached in an automaton that is not valid.
    pub fn read_string(&self, string: &str) -> (r: Vec<i64>)
        requires
            self.wf(),
        ensures
            r@.no_duplicates(),
            r@.to_set() == self@.read(string@),
    {
        if !self.is_valid() {
            let r: Vec<i64> = Vec::new();
            assert(r@.to_set() =~= Set::<i64>::empty());
            return r;
        }
        let ghost w = string@;
        let mut cur = self.reach(&self.initial_state, Edges::Epsilon);
        assert(w.subrange(0, 0).len() == 0);
        let n = string.unicode_len();
        let mut i: usize = 0;
        while i < n
            invariant
                self.wf(),
                self@.valid(),
                w == string@,
                n == w.len(),
                i <= n,
                cur@.no_duplicates(),
                cur@.to_set().subset_of(self@.states),
                cur@.to_set() == run(self@.transitions, self@.initials, w.subrange(0, i as int)),
            decreases n - i,
        {
            let c = string.get_char(i);
            let next = self.make_transition(&cur, c);
            cur = self.reach(&next, Edges::Epsilon);
            assert(w.subrange(0, i + 1).drop_last() =~= w.subrange(0, i as int));
            assert(w.subrange(0, i + 1).last() == c);
            i += 1;
        }
        assert(w.subrange(0, n as int) =~= w);
        cur
    }

    /// True iff reading `string` reaches a final state.
    pub fn accepts(&self, string: &str) -> (r: bool)
        requires
            self.wf(),
        ensures
            r == self@.accepts(string@),
    {
        let reached = self.read_string(string);
        let found = self.meets_final(&reached);
        proof {
            if found {
                let q = choose|q: i64| reached@.contains(q) && self@.finals.contains(q);
                assert(self@.read(string@).contains(q));
            }
        }
        found
    }

    /// True iff some state of `v` is final.
    pub(crate) fn meets_final(&self, v: &Vec<i64>) -> (r: bool)
        requires
            self.wf(),
        ensures
            r == exists|q: i64| #[trigger] v@.contains(q) && self@.finals.contains(q),
    {
        let mut i: usize = 0;
        while i < v.len()
            invariant
                i <= v.len(),
                forall|j: int| 0 <= j < i ==> !self@.finals.contains(#[trigger] v@[j]),
            decreases v.len() - i,
        {
            if vecset::has_state(&self.final_states, v[i]) {
                assert(v@.contains(v@[i as int]));
                return true;
            }
            i += 1;
        }
        false
    }

    /// True iff no final state is reachable from an initial state.
    pub fn is_language_empty(&self) -> (r: bool)
        requires
            self.wf(),
        ensures
            r == self@.language_empty(),
    {
        let acc = self.reach(&self.initial_state, Edges::Forward);
        let found = self.meets_final(&acc);
        proof {
            if found {
                let q = choose|q: i64| acc@.contains(q) && self@.finals.contains(q);
                assert(self@.accessible().contains(q));
            }
            if !self@.language_empty() {
                let q = choose|q: i64| #[trigger] self@.accessible().contains(q) && self@.finals.contains(q);
                assert(acc@.to_set().contains(q));
            }
        }
        !found
    }

    /// Removes every state that no initial state reaches.
    pub fn remove_non_accessible_states(&mut self)
        requires
            old(self).wf(),
        ensures
            final(self).wf(),
            final(self)@ == (AutomatonView {
                states: old(self)@.states.intersect(old(self)@.accessible()),
                initials: old(self)@.initials.intersect(old(self)@.accessible()),
                finals: old(self)@.finals.intersect(old(self)@.accessible()),
                transitions: old(self)@.transitions.filter(
                    |t: Transition|
                        old(self)@.accessible().contains(t.0) && old(self)@.accessible().contains(t.2),
                ),
                ..old(self)@
            }),
    {
        let keep = self.reach(&self.initial_state, Edges::Forward);
        self.restrict_to(&keep);
        assert(self@.transitions =~= old(self)@.transitions.filter(
            |t: Transition|
                old(self)@.accessible().contains(t.0) && old(self)@.accessible().contains(t.2),
        ));
    }

    /// Removes every state that reaches no final state.
    pub fn remove_non_co_accessible_states(&mut self)
        requires
            old(self).wf(),
        ensures
            final(self).wf(),
            final(self)@ == (AutomatonView {
                states: old(self)@.states.intersect(old(self)@.co_accessible()),
                initials: old(self)@.initials.intersect(old(self)@.co_accessible()),
                finals: old(self)@.finals.intersect(old(self)@.co_accessible()),
                transitions: old(self)@.transitions.filter(
                    |t: Transition|
                        old(self)@.co_accessible().contains(t.0) && old(self)@.co_accessible().contains(
                            t.2,
                        ),
                ),
                ..old(self)@
            }),
    {
        let keep = self.reach(&self.final_states, Edges::Backward);
        self.restrict_to(&keep);
        assert(self@.transitions =~= old(self)@.transitions.filter(
            |t: Transition|
                old(self)@.co_accessible().contains(t.0) && old(self)@.co_accessible().contains(t.2),
        ));
    }

    /// The states reachable from `start` along edges of kind `mode`.
    pub(crate) fn reach(&self, start: &Vec<i64>, mode: Edges) -> (r: Vec<i64>)
        requires
            self.wf(),
            start@.to_set().subset_of(self@.states),
        ensures
            r@.no_duplicates(),
            r@.to_set() == closure(mode, self@.transitions, start@.to_set()),
            r@.to_set().subset_of(self@.states),
    {
        let ghost tr = self@.transitions;
        let ghost s0 = start@.to_set();
        let mut res: Vec<i64> = Vec::new();
        let mut k: usize = 0;
        while k < start.len()
            invariant
                k <= start.len(),
                res@.no_duplicates(),
                forall|x: i64| #[trigger] res@.contains(x) <==> exists|j: int| 0 <= j < k && start@[j] == x,
            decreases start.len() - k,
        {
            let x = start[k];
            proof {
                vecset::lemma_push_contains(res@, x);
            }
            if !vecset::has_state(&res, x) {
                res.push(x);
            }
            k += 1;
        }
        assert(res@.to_set() =~= s0);
        proof {
            vecset::lemma_len(res@);
            vecset::lemma_len(self.states@);
            vstd::set_lib::lemma_len_subset(res@.to_set(), self@.states);
        }
        let mut i: usize = 0;
        while i < res.len()
            invariant
                self.wf(),
                tr == self@.transitions,
                s0 == start@.to_set(),
                i <= res.len() <= self.states@.len(),
                res@.no_duplicates(),
                s0.subset_of(res@.to_set()),
                res@.to_set().subset_of(self@.states),
                forall|k: int, q: i64| 0 <= k < i && #[trigger] edge(mode, tr, res@[k], q) ==> res@.contains(q),
                forall|u: Set<i64>| s0.subset_of(u) && closed_under(mode, tr, u) ==> #[trigger] res@.to_set().subset_of(u),
            decreases self.states@.len() - i,
        {
            let x = res[i];
            let mut j: usize = 0;
            while j < self.transitions.len()
                invariant
                    self.wf(),
                    tr == self@.transitions,
                    s0 == start@.to_set(),
                    i < res.len() <= self.states@.len(),
                    j <= self.transitions.len(),
                    x == res@[i as int],
                    res@.no_duplicates(),
                    s0.subset_of(res@.to_set()),
                    res@.to_set().subset_of(self@.states),
                    forall|k: int, q: i64| 0 <= k < i && #[trigger] edge(mode, tr, res@[k], q) ==> res@.contains(q),
                    forall|u: Set<i64>| s0.subset_of(u) && closed_under(mode, tr, u) ==> #[trigger] res@.to_set().subset_of(u),
                    forall|jj: int, q: i64| 0 <= jj < j && #[trigger] edge_via(mode, self.transitions@[jj], x, q) ==> res@.contains(q),
                decreases self.transitions.len() - j,
            {
                let t = self.transitions[j];
                assert(tr.contains(t));
                match edge_target(mode, t, x) {
                    Some(q) => {
                        if !vecset::has_state(&res, q) {
                            assert(edge(mode, tr, x, q));
                            assert(self@.states.contains(q));
                            let ghost old_res = res@;
                            proof {
                                vecset::lemma_push_contains(res@, q);
                            }
                            res.push(q);
                            assert forall|u: Set<i64>| s0.subset_of(u) && closed_under(mode, tr, u) implies #[trigger] res@.to_set().subset_of(u) by {
                                assert(old_res.to_set().subset_of(u));
                                assert(old_res[i as int] == x);
                                assert(u.contains(x));
                            }
                            assert forall|kk: int, qq: i64| 0 <= kk < i && #[trigger] edge(mode, tr, res@[kk], qq) implies res@.contains(qq) by {
                                assert(res@[kk] == old_res[kk]);
                            }
                            proof {
                                vecset::lemma_len(res@);
                                vecset::lemma_len(self.states@);
                                vstd::set_lib::lemma_len_subset(res@.to_set(), self@.states);
                            }
                        }
                    },
                    None => {},
                }
                j += 1;
            }
            assert forall|k: int, q: i64| 0 <= k < i + 1 && #[trigger] edge(mode, tr, res@[k], q) implies res@.contains(q) by {
                if k == i {
                    let t = choose|t: Transition| #[trigger] tr.contains(t) && edge_via(mode, t, x, q);
                    let jj = choose|jj: int| 0 <= jj < self.transitions@.len() && self.transitions@[jj] == t;
                    assert(edge_via(mode, self.transitions@[jj], x, q));
                }
            }
            i += 1;
        }
        assert forall|p: i64, q: i64| res@.to_set().contains(p) && #[trigger] edge(mode, tr, p, q) implies res@.to_set().contains(q) by {
            let k = choose|k: int| 0 <= k < res@.len() && res@[k] == p;
            assert(edge(mode, tr, res@[k], q));
        }
        proof {
            crate::model::lemma_closure_char(mode, tr, s0, res@.to_set());
        }
        res
    }
}

} // verus!
