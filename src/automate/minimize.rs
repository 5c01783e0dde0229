//! Minimization of automata.
use vstd::prelude::*;
use crate::automate::{Automate, AutomatonView};
use crate::automate::transform::{mirror_of, subset_automaton};
use crate::model::{EPSILON, Transition, below, lemma_below_len};
use crate::vecset;

verus! {

/// Every class below `count` has a member.
pub open spec fn covers(classes: Seq<usize>, count: usize) -> bool {
    forall|x: usize| x < count ==> #[trigger] used(classes, x)
}

/// Some member is in class `x`.
pub open spec fn used(classes: Seq<usize>, x: usize) -> bool {
    exists|k: int| 0 <= k < classes.len() && #[trigger] classes[k] == x
}

/// Some transition of `ts` leaves `x` with the label `c`.
pub open spec fn has_label(ts: Seq<Transition>, x: int, c: char) -> bool {
    exists|y: int| 0 <= y < ts.len() && (#[trigger] ts[y]).0 == x && ts[y].1 == c
}

impl Automate {
    /// The position of the state that the transition labelled with the symbol at
    /// position `l` leads to from the state at position `k`; `k` itself when there
    /// is none.
    fn successor_position(&self, k: usize, l: usize) -> (r: usize)
        requires
            self.wf(),
            k < self.states@.len(),
            l < self.alphabet@.len(),
        ensures
            r < self.states@.len(),
            self@.has_succ(self.states@[k as int], self.alphabet@[l as int]) ==> self@.transitions.contains(
                (self.states@[k as int], self.alphabet@[l as int], self.states@[r as int]),
            ),
    {
        let p = self.states[k];
        let c = self.alphabet[l];
        let mut x: usize = 0;
        while x < self.transitions.len()
            invariant
                self.wf(),
                k < self.states@.len(),
                l < self.alphabet@.len(),
                p == self.states@[k as int],
                c == self.alphabet@[l as int],
                x <= self.transitions.len(),
                forall|x2: int| 0 <= x2 < x ==> !((#[trigger] self.transitions@[x2]).0 == p && self.transitions@[x2].1 == c),
            decreases self.transitions.len() - x,
        {
            let t = self.transitions[x];
            if t.0 == p && t.1 == c {
                assert(self@.transitions.contains(t));
                let mut y: usize = 0;
                while y < self.states.len()
                    invariant
                        self.wf(),
                        k < self.states@.len(),
                        l < self.alphabet@.len(),
                        p == self.states@[k as int],
                        c == self.alphabet@[l as int],
                        t == (p, c, t.2),
                        self@.transitions.contains(t),
                        y <= self.states.len(),
                        forall|y2: int| 0 <= y2 < y ==> #[trigger] self.states@[y2] != t.2,
                    decreases self.states.len() - y,
                {
                    if self.states[y] == t.2 {
                        return y;
                    }
                    y += 1;
                }
                assert(!self@.states.contains(t.2));
            }
            x += 1;
        }
        assert forall|q: i64| !#[trigger] self@.transitions.contains((p, c, q)) by {
            if self@.transitions.contains((p, c, q)) {
                let x2 = choose|x2: int| 0 <= x2 < self.transitions@.len() && self.transitions@[x2] == (p, c, q);
            }
        }
        k
    }

    /// One round of refinement: states at positions `k` and `k2` stay in one class
    /// iff they were in one class and, on every symbol, lead to one class.
    fn refine(classes: &Vec<usize>, succ: &Vec<Vec<usize>>, width: usize) -> (r: (Vec<usize>, usize))
        requires
            succ@.len() == classes@.len(),
            forall|k: int| 0 <= k < succ@.len() ==> (#[trigger] succ@[k])@.len() == width,
            forall|k: int, l: int|
                0 <= k < succ@.len() && 0 <= l < width ==> (#[trigger] succ@[k]@[l]) < classes@.len(),
        ensures
            r.0@.len() == classes@.len(),
            r.1 <= classes@.len(),
            forall|k: int| 0 <= k < r.0@.len() ==> #[trigger] r.0@[k] < r.1,
            covers(r.0@, r.1),
    {
        let n = classes.len();
        let mut next: Vec<usize> = Vec::new();
        let mut count: usize = 0;
        let mut k: usize = 0;
        while k < n
            invariant
                n == classes@.len() == succ@.len(),
                forall|k: int| 0 <= k < succ@.len() ==> (#[trigger] succ@[k])@.len() == width,
                forall|k: int, l: int|
                    0 <= k < succ@.len() && 0 <= l < width ==> (#[trigger] succ@[k]@[l]) < classes@.len(),
                k <= n,
                next@.len() == k,
                count <= k,
                forall|x: int| 0 <= x < k ==> #[trigger] next@[x] < count,
                covers(next@, count),
            decreases n - k,
        {
            let mut found: Option<usize> = None;
            let mut k2: usize = 0;
            while k2 < k
                invariant
                    n == classes@.len() == succ@.len(),
                    forall|k: int| 0 <= k < succ@.len() ==> (#[trigger] succ@[k])@.len() == width,
                    forall|k: int, l: int|
                        0 <= k < succ@.len() && 0 <= l < width ==> (#[trigger] succ@[k]@[l]) < classes@.len(),
                    k < n,
                    k2 <= k,
                    next@.len() == k,
                    forall|x: int| 0 <= x < k ==> #[trigger] next@[x] < count,
                    match found {
                        Some(x) => x < count,
                        None => true,
                    },
                decreases k - k2,
            {
                if found.is_none() && classes[k2] == classes[k] {
                    let mut same = true;
                    let mut l: usize = 0;
                    while l < width
                        invariant
                            n == classes@.len() == succ@.len(),
                            forall|k: int| 0 <= k < succ@.len() ==> (#[trigger] succ@[k])@.len() == width,
                            forall|k: int, l: int|
                                0 <= k < succ@.len() && 0 <= l < width ==> (#[trigger] succ@[k]@[l]) < classes@.len(),
                            k < n,
                            k2 < k,
                            l <= width,
                        decreases width - l,
                    {
                        if classes[succ[k2][l]] != classes[succ[k][l]] {
                            same = false;
                        }
                        l += 1;
                    }
                    if same {
                        found = Some(next[k2]);
                    }
                }
                k2 += 1;
            }
            let ghost before = next@;
            match found {
                Some(x) => next.push(x),
                None => {
                    next.push(count);
                    count += 1;
                },
            }
            assert forall|y: usize| y < count implies #[trigger] used(next@, y) by {
                if used(before, y) {
                    let k2 = choose|k2: int| 0 <= k2 < before.len() && #[trigger] before[k2] == y;
                    assert(next@[k2] == y);
                } else {
                    assert(next@[k as int] == y);
                }
            }
            k += 1;
        }
        (next, count)
    }

    /// Moore's minimization: the automaton is made deterministic and complete, then
    /// its states are split into classes, first final against non-final, then
    /// apart whenever two states of a class lead on some symbol to different
    /// classes, until no class splits. Each class is one state of the result,
    /// behaving as its first member.
    #[verifier::rlimit(60)]
    pub fn create_minimal_moore(other: &Automate) -> (r: Automate)
        requires
            other.wf(),
        ensures
            r.wf(),
            r@.deterministic(),
            r@.complete(),
            r@.symbols == other@.symbols,
    {
        let d = Automate::create_deterministic(other);
        proof {
            let sets = choose|sets: Seq<Set<i64>>| subset_automaton(other@, d@, sets);
            lemma_below_len(sets.len() as int);
            assert(d@.states.contains(0));
        }
        let c = Automate::create_complete(&d);
        proof {
            vecset::lemma_len(c.states@);
            vecset::lemma_len(c.initial_state@);
        }
        let n = c.states.len();
        let width = c.alphabet.len();
        let mut succ: Vec<Vec<usize>> = Vec::new();
        let mut classes: Vec<usize> = Vec::new();
        let mut count: usize = 0;
        let mut finals_class: Option<usize> = None;
        let mut others_class: Option<usize> = None;
        let mut k: usize = 0;
        while k < n
            invariant
                c.wf(),
                n == c.states@.len(),
                width == c.alphabet@.len(),
                k <= n,
                succ@.len() == k,
                classes@.len() == k,
                count <= k,
                forall|x: int| 0 <= x < k ==> (#[trigger] succ@[x])@.len() == width,
                forall|x: int, l: int| 0 <= x < k && 0 <= l < width ==> (#[trigger] succ@[x]@[l]) < n,
                forall|x: int| 0 <= x < k ==> #[trigger] classes@[x] < count,
                match finals_class {
                    Some(x) => x < count,
                    None => true,
                },
                match others_class {
                    Some(x) => x < count,
                    None => true,
                },
                covers(classes@, count),
            decreases n - k,
        {
            let mut row: Vec<usize> = Vec::new();
            let mut l: usize = 0;
            while l < width
                invariant
                    c.wf(),
                    n == c.states@.len(),
                    width == c.alphabet@.len(),
                    k < n,
                    l <= width,
                    row@.len() == l,
                    forall|y: int| 0 <= y < l ==> #[trigger] row@[y] < n,
                decreases width - l,
            {
                row.push(c.successor_position(k, l));
                l += 1;
            }
            succ.push(row);
            let is_final = c.is_state_final(c.states[k]);
            let class = if is_final {
                match finals_class {
                    Some(x) => x,
                    None => {
                        finals_class = Some(count);
                        count += 1;
                        count - 1
                    },
                }
            } else {
                match others_class {
                    Some(x) => x,
                    None => {
                        others_class = Some(count);
                        count += 1;
                        count - 1
                    },
                }
            };
            let ghost before = classes@;
            classes.push(class);
            assert forall|y: usize| y < count implies #[trigger] used(classes@, y) by {
                if used(before, y) {
                    let k2 = choose|k2: int| 0 <= k2 < before.len() && #[trigger] before[k2] == y;
                    assert(classes@[k2] == y);
                } else {
                    assert(classes@[k as int] == y);
                }
            }
            k += 1;
        }
        let mut round: usize = 0;
        while round < n
            invariant
                n == classes@.len() == succ@.len(),
                count <= n,
                forall|x: int| 0 <= x < n ==> (#[trigger] succ@[x])@.len() == width,
                forall|x: int, l: int| 0 <= x < n && 0 <= l < width ==> (#[trigger] succ@[x]@[l]) < n,
                forall|x: int| 0 <= x < n ==> #[trigger] classes@[x] < count,
                covers(classes@, count),
            decreases n - round,
        {
            let (next, next_count) = Automate::refine(&classes, &succ, width);
            let stable = next_count == count;
            classes = next;
            count = next_count;
            if stable {
                break;
            }
            round += 1;
        }
        proof {
            assert(c@.states.len() <= d@.states.len() + 1) by {
                if !d@.complete() {
                    assert(c@.states == d@.states.insert(crate::model::first_free(d@.states)));
                }
            }
            assert(c@.initials.len() == 1);
            assert(c@.states.contains(0));
        }
        Automate::from_classes(&c, &classes, &succ, count)
    }

    /// The automaton whose states are the classes `0 .. count` of the states of
    /// `c`, each behaving as its first member.
    #[verifier::rlimit(60)]
    fn from_classes(c: &Automate, classes: &Vec<usize>, succ: &Vec<Vec<usize>>, count: usize) -> (r: Automate)
        requires
            c.wf(),
            c@.initials.len() == 1,
            classes@.len() == succ@.len() == c.states@.len() <= i64::MAX,
            count <= c.states@.len(),
            forall|x: int| 0 <= x < succ@.len() ==> (#[trigger] succ@[x])@.len() == c.alphabet@.len(),
            forall|x: int, l: int|
                0 <= x < succ@.len() && 0 <= l < c.alphabet@.len() ==> (#[trigger] succ@[x]@[l]) < succ@.len(),
            forall|x: int| 0 <= x < classes@.len() ==> #[trigger] classes@[x] < count,
            covers(classes@, count),
            c.states@.len() >= 1,
        ensures
            r.wf(),
            r@.deterministic(),
            r@.complete(),
            r@.symbols == c@.symbols,
    {
        let n = c.states.len();
        let width = c.alphabet.len();
        proof {
            vecset::lemma_len(c.states@);
            vecset::lemma_len(c.initial_state@);
            vecset::lemma_len(c.alphabet@);
        }
        let mut states: Vec<i64> = Vec::new();
        let mut finals: Vec<i64> = Vec::new();
        let mut transitions: Vec<Transition> = Vec::new();
        let mut x: usize = 0;
        while x < count
            invariant
                c.wf(),
                n == c.states@.len() == classes@.len() == succ@.len() <= i64::MAX,
                width == c.alphabet@.len(),
                count <= n,
                forall|y: int| 0 <= y < succ@.len() ==> (#[trigger] succ@[y])@.len() == width,
                forall|y: int, l: int| 0 <= y < n && 0 <= l < width ==> (#[trigger] succ@[y]@[l]) < n,
                forall|y: int| 0 <= y < n ==> #[trigger] classes@[y] < count,
                x <= count,
                states@.len() == x,
                forall|y: int| 0 <= y < x ==> #[trigger] states@[y] == y,
                finals@.no_duplicates(),
                forall|q: i64| #[trigger] finals@.contains(q) ==> 0 <= q < x,
                forall|y: int, z: int|
                    0 <= y < z < transitions@.len() ==> ((#[trigger] transitions@[y]).0 != (#[trigger] transitions@[z]).0
                        || transitions@[y].1 != transitions@[z].1),
                forall|y: int|
                    0 <= y < transitions@.len() ==> {
                        &&& 0 <= (#[trigger] transitions@[y]).0 < x
                        &&& 0 <= transitions@[y].2 < count
                        &&& c@.symbols.contains(transitions@[y].1)
                    },
                covers(classes@, count),
                forall|x2: int, l2: int| 0 <= x2 < x && 0 <= l2 < width ==> #[trigger] has_label(transitions@, x2, c.alphabet@[l2]),
            decreases count - x,
        {
            states.push(x as i64);
            let mut rep: Option<usize> = None;
            let mut k: usize = 0;
            while k < n
                invariant
                    n == classes@.len(),
                    k <= n,
                    match rep {
                        Some(v) => v < n,
                        None => forall|k2: int| 0 <= k2 < k ==> #[trigger] classes@[k2] != x,
                    },
                decreases n - k,
            {
                if rep.is_none() && classes[k] == x {
                    rep = Some(k);
                }
                k += 1;
            }
            match rep {
                Some(k) => {
                    if c.is_state_final(c.states[k]) {
                        proof {
                            vecset::lemma_push_contains(finals@, x as i64);
                        }
                        finals.push(x as i64);
                    }
                    let mut l: usize = 0;
                    while l < width
                        invariant
                            c.wf(),
                            n == c.states@.len() == classes@.len() == succ@.len() <= i64::MAX,
                            width == c.alphabet@.len(),
                            k < n,
                            x < count <= n,
                            forall|y: int| 0 <= y < succ@.len() ==> (#[trigger] succ@[y])@.len() == width,
                            forall|y: int, l: int| 0 <= y < n && 0 <= l < width ==> (#[trigger] succ@[y]@[l]) < n,
                            forall|y: int| 0 <= y < n ==> #[trigger] classes@[y] < count,
                            l <= width,
                            forall|y: int, z: int|
                                0 <= y < z < transitions@.len() ==> ((#[trigger] transitions@[y]).0 != (#[trigger] transitions@[z]).0
                                    || transitions@[y].1 != transitions@[z].1),
                            forall|y: int|
                                0 <= y < transitions@.len() ==> {
                                    &&& 0 <= (#[trigger] transitions@[y]).0 <= x
                                    &&& (transitions@[y].0 == x ==> c.alphabet@.subrange(0, l as int).contains(transitions@[y].1))
                                    &&& 0 <= transitions@[y].2 < count
                                    &&& c@.symbols.contains(transitions@[y].1)
                                },
                            forall|x2: int, l2: int| 0 <= x2 < x && 0 <= l2 < width ==> #[trigger] has_label(transitions@, x2, c.alphabet@[l2]),
                            forall|l2: int| 0 <= l2 < l ==> #[trigger] has_label(transitions@, x as int, c.alphabet@[l2]),
                        decreases width - l,
                    {
                        let sym = c.alphabet[l];
                        proof {
                            vecset::lemma_prefix_contains(c.alphabet@, l as int);
                        }
                        let ghost before = transitions@;
                        assert forall|y: int| 0 <= y < before.len() implies !((#[trigger] before[y]).0 == x && before[y].1 == sym) by {
                            if before[y].0 == x {
                                let b = choose|b: int| 0 <= b < l && c.alphabet@.subrange(0, l as int)[b] == before[y].1;
                                assert(c.alphabet@[b] == before[y].1);
                            }
                        }
                        let target = classes[succ[k][l]];
                        transitions.push((x as i64, sym, target as i64));
                        assert(transitions@[before.len() as int] == (x as i64, sym, target as i64));
                        assert forall|y: int| 0 <= y < before.len() implies transitions@[y] == before[y] by {}
                        assert(c@.symbols.contains(sym));
                        assert forall|x2: int, l2: int| 0 <= x2 < x && 0 <= l2 < width implies #[trigger] has_label(transitions@, x2, c.alphabet@[l2]) by {
                            assert(has_label(before, x2, c.alphabet@[l2]));
                            let y = choose|y: int| 0 <= y < before.len() && (#[trigger] before[y]).0 == x2 && before[y].1 == c.alphabet@[l2];
                            assert(transitions@[y] == before[y]);
                        }
                        assert forall|l2: int| 0 <= l2 < l + 1 implies #[trigger] has_label(transitions@, x as int, c.alphabet@[l2]) by {
                            if l2 == l {
                                assert(transitions@[before.len() as int] == (x as i64, sym, target as i64));
                            } else {
                                assert(has_label(before, x as int, c.alphabet@[l2]));
                                let y = choose|y: int| 0 <= y < before.len() && (#[trigger] before[y]).0 == x && before[y].1 == c.alphabet@[l2];
                                assert(transitions@[y] == before[y]);
                            }
                        }
                        l += 1;
                    }
                },
                None => {
                    assert(used(classes@, x));
                },
            }
            proof {
                vecset::lemma_push_contains(finals@, x as i64);
            }
            x += 1;
        }
        let c0 = c.initial_state[0];
        let mut init_class: usize = 0;
        let mut k: usize = 0;
        while k < n
            invariant
                n == classes@.len() == c.states@.len() <= i64::MAX,
                count <= n,
                forall|y: int| 0 <= y < n ==> #[trigger] classes@[y] < count,
                k <= n,
                init_class == 0 || init_class < count,
            decreases n - k,
        {
            if c.states[k] == c0 {
                init_class = classes[k];
            }
            k += 1;
        }
        let states_v = states;
        let ghost total = count as int;
        assert(classes@[0] < count);
        let mut initial_state: Vec<i64> = Vec::new();
        initial_state.push(init_class as i64);
        let r = Automate {
            alphabet: vecset::copy_symbols(&c.alphabet),
            states: states_v,
            initial_state,
            final_states: finals,
            transitions,
        };
        proof {
            assert forall|q: i64| #[trigger] r@.states.contains(q) <==> 0 <= q < total by {
                if 0 <= q < total {
                    assert(r.states@[q as int] == q);
                }
            }
            assert(r@.states =~= below(total));
            assert(r.states@.no_duplicates()) by {
                assert forall|y: int, z: int| 0 <= y < z < r.states@.len() implies r.states@[y] != r.states@[z] by {
                    assert(r.states@[y] == y && r.states@[z] == z);
                }
            }
            lemma_below_len(total);
            vecset::lemma_len(r.states@);
            assert(r.transitions@.no_duplicates()) by {
                assert forall|y: int, z: int| 0 <= y < z < r.transitions@.len() implies r.transitions@[y] != r.transitions@[z] by {
                    assert(r.transitions@[y].0 != r.transitions@[z].0 || r.transitions@[y].1 != r.transitions@[z].1);
                }
            }
            vecset::lemma_len(r.transitions@);
            vecset::lemma_push_contains(Seq::<i64>::empty(), init_class as i64);
            assert(r.initial_state@ =~= Seq::<i64>::empty().push(init_class as i64));
            assert(r@.initials =~= set![init_class as i64]);
            assert(r@.initials.len() == 1);
            assert forall|t: Transition| #[trigger] r@.transitions.contains(t) implies {
                &&& r@.states.contains(t.0)
                &&& r@.states.contains(t.2)
                &&& t.1 != EPSILON
                &&& r@.symbols.contains(t.1)
            } by {
                let y = choose|y: int| 0 <= y < r.transitions@.len() && r.transitions@[y] == t;
                assert(0 <= (r.transitions@[y]).0 < count);
            }
            assert forall|p: i64, s: char, q1: i64, q2: i64|
                #[trigger] r@.transitions.contains((p, s, q1)) && #[trigger] r@.transitions.contains((p, s, q2)) implies q1 == q2 by {
                let y = choose|y: int| 0 <= y < r.transitions@.len() && r.transitions@[y] == (p, s, q1);
                let z = choose|z: int| 0 <= z < r.transitions@.len() && r.transitions@[z] == (p, s, q2);
                if y < z {
                    assert(r.transitions@[y].0 != r.transitions@[z].0 || r.transitions@[y].1 != r.transitions@[z].1);
                } else if z < y {
                    assert(r.transitions@[z].0 != r.transitions@[y].0 || r.transitions@[z].1 != r.transitions@[y].1);
                }
            }
            assert forall|q: i64| #[trigger] r@.finals.contains(q) implies r@.states.contains(q) by {}
            assert forall|p: i64, s: char| r@.states.contains(p) && r@.symbols.contains(s) implies #[trigger] r@.has_succ(p, s) by {
                let l2 = choose|l2: int| 0 <= l2 < c.alphabet@.len() && c.alphabet@[l2] == s;
                assert(has_label(r.transitions@, p as int, c.alphabet@[l2]));
                let y = choose|y: int| 0 <= y < r.transitions@.len() && (#[trigger] r.transitions@[y]).0 == p && r.transitions@[y].1 == s;
                assert(r@.transitions.contains((p, s, r.transitions@[y].2)));
            }
        }
        r
    }

    /// Brzozowski's minimization: mirror, determinize, mirror again, determinize
    /// again.
    pub fn create_minimal_brzozowski(other: &Automate) -> (r: Automate)
        requires
            other.wf(),
        ensures
            r.wf(),
            r@.deterministic(),
            exists|d: AutomatonView|
                #![trigger mirror_of(d)]
                d.wf() && (exists|sets: Seq<Set<i64>>| subset_automaton(mirror_of(other@), d, sets))
                    && exists|sets: Seq<Set<i64>>| subset_automaton(mirror_of(d), r@, sets),
    {
        let m1 = Automate::create_mirror(other);
        let d1 = Automate::create_deterministic(&m1);
        let m2 = Automate::create_mirror(&d1);
        let r = Automate::create_deterministic(&m2);
        assert(d1.wf());
        r
    }
}

} // verus!
