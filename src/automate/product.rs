//! The product of two automata, and the decisions built on it.
use vstd::prelude::*;
use crate::automate::{Automate, AutomatonView};
use crate::automate::transform::complement_spec;
use crate::model::{EPSILON, Transition, below, lemma_below_len};
use crate::vecset;

verus! {

/// One move of the product from `(p, q)` to `(p2, q2)` on `c`: both sides move
/// together on a symbol, and an epsilon move steps one side while the other stays.
pub open spec fn product_step(
    a: AutomatonView,
    b: AutomatonView,
    p: i64,
    q: i64,
    c: char,
    p2: i64,
    q2: i64,
) -> bool {
    ||| (c != EPSILON && a.transitions.contains((p, c, p2)) && b.transitions.contains((q, c, q2)))
    ||| (c == EPSILON && a.transitions.contains((p, EPSILON, p2)) && q2 == q)
    ||| (c == EPSILON && p2 == p && b.transitions.contains((q, EPSILON, q2)))
}

/// The identifier of the pair of positions `(i, j)` in a product with `m` states
/// on the right.
pub open spec fn pair_id(i: int, j: int, m: int) -> int {
    i * m + j
}

proof fn lemma_pair_id(i: int, j: int, i2: int, j2: int, n: int, m: int)
    requires
        0 <= i < n,
        0 <= i2 < n,
        0 <= j < m,
        0 <= j2 < m,
    ensures
        0 <= pair_id(i, j, m) < n * m,
        pair_id(i, j, m) == pair_id(i2, j2, m) ==> i == i2 && j == j2,
{
    assert(0 <= i * m + j < n * m) by (nonlinear_arith)
        requires
            0 <= i < n,
            0 <= j < m,
    ;
    if pair_id(i, j, m) == pair_id(i2, j2, m) {
        assert(i == i2 && j == j2) by (nonlinear_arith)
            requires
                i * m + j == i2 * m + j2,
                0 <= j < m,
                0 <= j2 < m,
        ;
    }
}

/// The identifier, in a product with right operand `b`, of the pair of positions
/// `(i, j)`.
pub open spec fn product_id(b: AutomatonView, i: int, j: int) -> i64 {
    pair_id(i, j, b.states.len() as int) as i64
}

/// The transition `t` joins two pairs of `pairs` by a move of the product.
pub open spec fn pair_step(lhs: &Automate, rhs: &Automate, pairs: Seq<(usize, usize)>, t: Transition) -> bool {
    &&& 0 <= t.0 < pairs.len()
    &&& 0 <= t.2 < pairs.len()
    &&& product_step(
        lhs@,
        rhs@,
        lhs.state_at(pairs[t.0 as int].0 as int),
        rhs.state_at(pairs[t.0 as int].1 as int),
        t.1,
        lhs.state_at(pairs[t.2 as int].0 as int),
        rhs.state_at(pairs[t.2 as int].1 as int),
    )
}

/// The moves of the product found before origin `k`, destination `k2` and the
/// label at position `l`.
pub open spec fn moves_before(
    lhs: &Automate,
    rhs: &Automate,
    pairs: Seq<(usize, usize)>,
    labels: Seq<char>,
    k: int,
    k2: int,
    l: int,
) -> Set<Transition> {
    Set::new(
        |t: Transition|
            pair_step(lhs, rhs, pairs, t) && labels.contains(t.1) && (t.0 < k || (t.0 == k && (t.2
                < k2 || (t.2 == k2 && labels.subrange(0, l).contains(t.1))))),
    )
}

/// `r` is the product of `lhs` and `rhs`: its states are the pairs of a state of
/// each, the pair of positions `(i, j)` being the state `i * m + j` where `m` is the
/// number of states of `rhs`; a pair is initial (final) iff both sides are; it moves
/// as `product_step` says; and it is well formed, so it has no other state, mark or
/// transition.
pub open spec fn is_product(lhs: &Automate, rhs: &Automate, r: AutomatonView) -> bool {
    let n = lhs@.states.len() as int;
    let m = rhs@.states.len() as int;
    &&& r.wf()
    &&& r.symbols == lhs@.symbols.intersect(rhs@.symbols)
    &&& r.states == below(n * m)
    &&& forall|i: int, j: int|
        0 <= i < n && 0 <= j < m ==> (#[trigger] r.initials.contains(product_id(rhs@, i, j))
            <==> lhs@.initials.contains(lhs.state_at(i)) && rhs@.initials.contains(rhs.state_at(j)))
    &&& forall|i: int, j: int|
        0 <= i < n && 0 <= j < m ==> (#[trigger] r.finals.contains(product_id(rhs@, i, j))
            <==> lhs@.finals.contains(lhs.state_at(i)) && rhs@.finals.contains(rhs.state_at(j)))
    &&& forall|i: int, j: int, c: char, i2: int, j2: int|
        0 <= i < n && 0 <= j < m && 0 <= i2 < n && 0 <= j2 < m ==> (#[trigger] r.transitions.contains(
            (product_id(rhs@, i, j), c, product_id(rhs@, i2, j2)),
        ) <==> product_step(
            lhs@,
            rhs@,
            lhs.state_at(i),
            rhs.state_at(j),
            c,
            lhs.state_at(i2),
            rhs.state_at(j2),
        ))
}

/// Each identifier below `n * m` is the pair identifier of some pair of positions.
proof fn lemma_pair_decode(x: int, n: int, m: int)
    requires
        0 <= n,
        0 <= m,
        0 <= x < n * m,
    ensures
        0 <= x / m < n,
        0 <= x % m < m,
        pair_id(x / m, x % m, m) == x,
{
    if m == 0 {
        assert(n * m == 0);
    }
    vstd::arithmetic::div_mod::lemma_fundamental_div_mod(x, m);
    vstd::arithmetic::div_mod::lemma_mod_pos_bound(x, m);
    let q = x / m;
    let r = x % m;
    assert(0 <= q < n) by (nonlinear_arith)
        requires
            x == m * q + r,
            0 <= r < m,
            0 <= x < n * m,
    ;
    assert(pair_id(q, r, m) == x) by (nonlinear_arith)
        requires
            x == m * q + r,
    ;
}

/// The product of two automata is unique: the conditions of `is_product` fix every
/// state, mark and transition.
pub proof fn law_product_unique(lhs: &Automate, rhs: &Automate, p1: AutomatonView, p2: AutomatonView)
    requires
        is_product(lhs, rhs, p1),
        is_product(lhs, rhs, p2),
    ensures
        p1 == p2,
{
    let n = lhs@.states.len() as int;
    let m = rhs@.states.len() as int;
    assert forall|x: i64| #[trigger] p1.initials.contains(x) <==> p2.initials.contains(x) by {
        if p1.initials.contains(x) || p2.initials.contains(x) {
            lemma_pair_decode(x as int, n, m);
            assert(product_id(rhs@, (x as int) / m, (x as int) % m) == x);
        }
    }
    assert forall|x: i64| #[trigger] p1.finals.contains(x) <==> p2.finals.contains(x) by {
        if p1.finals.contains(x) || p2.finals.contains(x) {
            lemma_pair_decode(x as int, n, m);
            assert(product_id(rhs@, (x as int) / m, (x as int) % m) == x);
        }
    }
    assert forall|t: Transition| #[trigger] p1.transitions.contains(t) <==> p2.transitions.contains(t) by {
        if p1.transitions.contains(t) || p2.transitions.contains(t) {
            lemma_pair_decode(t.0 as int, n, m);
            lemma_pair_decode(t.2 as int, n, m);
            assert(product_id(rhs@, (t.0 as int) / m, (t.0 as int) % m) == t.0);
            assert(product_id(rhs@, (t.2 as int) / m, (t.2 as int) % m) == t.2);
            assert(t == (product_id(rhs@, (t.0 as int) / m, (t.0 as int) % m), t.1, product_id(rhs@, (t.2 as int) / m, (t.2 as int) % m)));
        }
    }
    assert(p1.initials =~= p2.initials);
    assert(p1.finals =~= p2.finals);
    assert(p1.transitions =~= p2.transitions);
}

impl Automate {
    /// True iff the product of `lhs` and `rhs` moves from `(p, q)` to `(p2, q2)` on `c`.
    fn product_has(lhs: &Automate, rhs: &Automate, p: i64, q: i64, c: char, p2: i64, q2: i64) -> (r: bool)
        requires
            lhs.wf(),
            rhs.wf(),
        ensures
            r == product_step(lhs@, rhs@, p, q, c, p2, q2),
    {
        if c != EPSILON {
            lhs.has_transition(p, c, p2) && rhs.has_transition(q, c, q2)
        } else {
            (q2 == q && lhs.has_transition(p, EPSILON, p2)) || (p2 == p && rhs.has_transition(q, EPSILON, q2))
        }
    }

    /// The moves of the product between the pairs of `pairs`, on the labels of
    /// `labels`.
    fn product_moves(lhs: &Automate, rhs: &Automate, pairs: &Vec<(usize, usize)>, labels: &Vec<char>) -> (r: Vec<Transition>)
        requires
            lhs.wf(),
            rhs.wf(),
            pairs@.len() <= i64::MAX,
            forall|k: int| 0 <= k < pairs@.len() ==> (#[trigger] pairs@[k]).0 < lhs@.states.len() && pairs@[k].1 < rhs@.states.len(),
        ensures
            r@.no_duplicates(),
            r@.to_set() == moves_before(lhs, rhs, pairs@, labels@, pairs@.len() as int, 0, 0),
    {
        let nm = pairs.len();
        let mut r: Vec<Transition> = Vec::new();
        assert(r@.to_set() =~= moves_before(lhs, rhs, pairs@, labels@, 0, 0, 0));
        let mut k: usize = 0;
        while k < nm
            invariant
                lhs.wf(),
                rhs.wf(),
                nm == pairs@.len() <= i64::MAX,
                forall|k: int| 0 <= k < pairs@.len() ==> (#[trigger] pairs@[k]).0 < lhs@.states.len() && pairs@[k].1 < rhs@.states.len(),
                k <= nm,
                r@.no_duplicates(),
                r@.to_set() == moves_before(lhs, rhs, pairs@, labels@, k as int, 0, 0),
            decreases nm - k,
        {
            let mut k2: usize = 0;
            while k2 < nm
                invariant
                    lhs.wf(),
                    rhs.wf(),
                    nm == pairs@.len() <= i64::MAX,
                    forall|k: int| 0 <= k < pairs@.len() ==> (#[trigger] pairs@[k]).0 < lhs@.states.len() && pairs@[k].1 < rhs@.states.len(),
                    k < nm,
                    k2 <= nm,
                    r@.no_duplicates(),
                    r@.to_set() == moves_before(lhs, rhs, pairs@, labels@, k as int, k2 as int, 0),
                decreases nm - k2,
            {
                let mut l: usize = 0;
                while l < labels.len()
                    invariant
                        lhs.wf(),
                        rhs.wf(),
                        nm == pairs@.len() <= i64::MAX,
                        forall|k: int| 0 <= k < pairs@.len() ==> (#[trigger] pairs@[k]).0 < lhs@.states.len() && pairs@[k].1 < rhs@.states.len(),
                        k < nm,
                        k2 < nm,
                        l <= labels.len(),
                        r@.no_duplicates(),
                        r@.to_set() == moves_before(lhs, rhs, pairs@, labels@, k as int, k2 as int, l as int),
                    decreases labels.len() - l,
                {
                    let (i, j) = pairs[k];
                    let (i2, j2) = pairs[k2];
                    let c = labels[l];
                    proof {
                        vecset::lemma_prefix_contains(labels@, l as int);
                        vecset::lemma_len(lhs.states@);
                        vecset::lemma_len(rhs.states@);
                    }
                    let t = (k as i64, c, k2 as i64);
                    let hit = Automate::product_has(lhs, rhs, lhs.states[i], rhs.states[j], c, lhs.states[i2], rhs.states[j2]);
                    if hit {
                        vecset::insert_transition(&mut r, t);
                    }
                    assert(r@.to_set() =~= moves_before(lhs, rhs, pairs@, labels@, k as int, k2 as int, l + 1));
                    l += 1;
                }
                assert(labels@.subrange(0, labels@.len() as int) =~= labels@);
                assert(r@.to_set() =~= moves_before(lhs, rhs, pairs@, labels@, k as int, k2 + 1, 0));
                k2 += 1;
            }
            assert(r@.to_set() =~= moves_before(lhs, rhs, pairs@, labels@, k + 1, 0, 0));
            k += 1;
        }
        r
    }

    /// The product of `lhs` and `rhs`, whose language is the intersection of
    /// theirs. Its states are the pairs of a state of each, the pair of positions
    /// `(i, j)` being the state `i * m + j` where `m` is the number of states of
    /// `rhs`; a pair is initial (final) iff both sides are. It moves on a common
    /// symbol when both sides do; an epsilon move steps one side and leaves the
    /// other where it is.
    #[verifier::rlimit(60)]
    pub fn create_intersection(lhs: &Automate, rhs: &Automate) -> (r: Automate)
        requires
            lhs.wf(),
            rhs.wf(),
            lhs@.states.len() * rhs@.states.len() <= i64::MAX,
        ensures
            r.wf(),
            is_product(lhs, rhs, r@),
    {
        proof {
            vecset::lemma_len(lhs.states@);
            vecset::lemma_len(rhs.states@);
            lhs.lemma_state_at();
            rhs.lemma_state_at();
        }
        let n = lhs.states.len();
        let m = rhs.states.len();
        let ghost nm = n * m;
        let mut pairs: Vec<(usize, usize)> = Vec::new();
        let mut states: Vec<i64> = Vec::new();
        let mut initials: Vec<i64> = Vec::new();
        let mut finals: Vec<i64> = Vec::new();
        let mut i: usize = 0;
        while i < n
            invariant
                lhs.wf(),
                rhs.wf(),
                n == lhs@.states.len() == lhs.states@.len(),
                m == rhs@.states.len() == rhs.states@.len(),
                nm == n * m <= i64::MAX,
                i <= n,
                pairs@.len() == i * m,
                states@.len() == pairs@.len(),
                forall|k: int| 0 <= k < pairs@.len() ==> (#[trigger] pairs@[k]).0 < n && pairs@[k].1 < m
                    && pair_id(pairs@[k].0 as int, pairs@[k].1 as int, m as int) == k,
                forall|k: int| 0 <= k < states@.len() ==> #[trigger] states@[k] == k,
                initials@.no_duplicates(),
                finals@.no_duplicates(),
                forall|x: i64| #[trigger] initials@.contains(x) <==> 0 <= x < pairs@.len() && lhs@.initials.contains(
                    lhs.state_at(pairs@[x as int].0 as int)) && rhs@.initials.contains(rhs.state_at(pairs@[x as int].1 as int)),
                forall|x: i64| #[trigger] finals@.contains(x) <==> 0 <= x < pairs@.len() && lhs@.finals.contains(
                    lhs.state_at(pairs@[x as int].0 as int)) && rhs@.finals.contains(rhs.state_at(pairs@[x as int].1 as int)),
            decreases n - i,
        {
            let mut j: usize = 0;
            while j < m
                invariant
                    lhs.wf(),
                    rhs.wf(),
                    n == lhs@.states.len() == lhs.states@.len(),
                    m == rhs@.states.len() == rhs.states@.len(),
                    nm == n * m <= i64::MAX,
                    i < n,
                    j <= m,
                    pairs@.len() == i * m + j,
                    states@.len() == pairs@.len(),
                    forall|k: int| 0 <= k < pairs@.len() ==> (#[trigger] pairs@[k]).0 < n && pairs@[k].1 < m
                        && pair_id(pairs@[k].0 as int, pairs@[k].1 as int, m as int) == k,
                    forall|k: int| 0 <= k < states@.len() ==> #[trigger] states@[k] == k,
                    initials@.no_duplicates(),
                    finals@.no_duplicates(),
                    forall|x: i64| #[trigger] initials@.contains(x) <==> 0 <= x < pairs@.len() && lhs@.initials.contains(
                        lhs.state_at(pairs@[x as int].0 as int)) && rhs@.initials.contains(rhs.state_at(pairs@[x as int].1 as int)),
                    forall|x: i64| #[trigger] finals@.contains(x) <==> 0 <= x < pairs@.len() && lhs@.finals.contains(
                        lhs.state_at(pairs@[x as int].0 as int)) && rhs@.finals.contains(rhs.state_at(pairs@[x as int].1 as int)),
                decreases m - j,
            {
                proof {
                    lemma_pair_id(i as int, j as int, i as int, j as int, n as int, m as int);
                }
                let id = pairs.len() as i64;
                let ghost old_pairs = pairs@;
                pairs.push((i, j));
                states.push(id);
                let p = lhs.states[i];
                let q = rhs.states[j];
                assert(lhs.state_at(i as int) == p && rhs.state_at(j as int) == q);
                proof {
                    vecset::lemma_push_contains(initials@, id);
                    vecset::lemma_push_contains(finals@, id);
                    assert forall|k: int| 0 <= k < old_pairs.len() implies pairs@[k] == old_pairs[k] by {}
                }
                if lhs.is_state_initial(p) && rhs.is_state_initial(q) {
                    initials.push(id);
                }
                if lhs.is_state_final(p) && rhs.is_state_final(q) {
                    finals.push(id);
                }
                j += 1;
            }
            assert(i * m + m == (i + 1) * m) by (nonlinear_arith);
            i += 1;
        }
        let symbols = Automate::common_symbols(lhs, rhs);
        let mut labels = vecset::copy_symbols(&symbols);
        labels.push(EPSILON);
        let transitions = Automate::product_moves(lhs, rhs, &pairs, &labels);
        let r = Automate { alphabet: symbols, states, initial_state: initials, final_states: finals, transitions };
        proof {
            assert(pairs@.len() == nm);
            vecset::lemma_push_contains(symbols@, EPSILON);
            assert(r@.states =~= below(nm)) by {
                assert forall|x: i64| #[trigger] r@.states.contains(x) <==> 0 <= x < nm by {
                    if 0 <= x < nm {
                        assert(r.states@[x as int] == x);
                    }
                }
            }
            assert(r.states@.no_duplicates()) by {
                assert forall|x: int, y: int| 0 <= x < y < r.states@.len() implies r.states@[x] != r.states@[y] by {
                    assert(r.states@[x] == x && r.states@[y] == y);
                }
            }
            lemma_below_len(nm);
            vecset::lemma_len(r.transitions@);
            assert forall|t: Transition| #[trigger] r@.transitions.contains(t) implies (t.1 == EPSILON || r@.symbols.contains(t.1)) by {
                assert(labels@.contains(t.1));
            }
            assert forall|i: int, j: int| 0 <= i < n && 0 <= j < m implies (#[trigger] pairs@[pair_id(i, j, m as int)]) == (i as usize, j as usize) by {
                lemma_pair_id(i, j, i, j, n as int, m as int);
                let k = pair_id(i, j, m as int);
                lemma_pair_id(i, j, pairs@[k].0 as int, pairs@[k].1 as int, n as int, m as int);
            }
            assert forall|i: int, j: int, c: char, i2: int, j2: int|
                0 <= i < n && 0 <= j < m && 0 <= i2 < n && 0 <= j2 < m implies (#[trigger] r@.transitions.contains(
                    (product_id(rhs@, i, j), c, product_id(rhs@, i2, j2)),
                ) <==> product_step(lhs@, rhs@, lhs.state_at(i), rhs.state_at(j), c, lhs.state_at(i2), rhs.state_at(j2))) by {
                lemma_pair_id(i, j, i, j, n as int, m as int);
                lemma_pair_id(i2, j2, i2, j2, n as int, m as int);
                assert(pairs@[pair_id(i, j, m as int)] == (i as usize, j as usize));
                assert(pairs@[pair_id(i2, j2, m as int)] == (i2 as usize, j2 as usize));
                if product_step(lhs@, rhs@, lhs.state_at(i), rhs.state_at(j), c, lhs.state_at(i2), rhs.state_at(j2)) && c != EPSILON {
                    assert(lhs@.symbols.contains(c));
                    assert(rhs@.symbols.contains(c));
                    assert(symbols@.to_set().contains(c));
                }
            }
            assert forall|i: int, j: int| 0 <= i < n && 0 <= j < m implies (#[trigger] r@.initials.contains(
                product_id(rhs@, i, j),
            ) <==> lhs@.initials.contains(lhs.state_at(i)) && rhs@.initials.contains(rhs.state_at(j))) by {
                lemma_pair_id(i, j, i, j, n as int, m as int);
                assert(pairs@[pair_id(i, j, m as int)] == (i as usize, j as usize));
            }
            assert forall|i: int, j: int| 0 <= i < n && 0 <= j < m implies (#[trigger] r@.finals.contains(
                product_id(rhs@, i, j),
            ) <==> lhs@.finals.contains(lhs.state_at(i)) && rhs@.finals.contains(rhs.state_at(j))) by {
                lemma_pair_id(i, j, i, j, n as int, m as int);
                assert(pairs@[pair_id(i, j, m as int)] == (i as usize, j as usize));
            }
        }
        r
    }

    /// True iff no word is accepted by both `self` and `other`: the language of
    /// their product is empty.
    pub fn has_empty_intersection_with(&self, other: &Automate) -> (r: bool)
        requires
            self.wf(),
            other.wf(),
            self@.states.len() * other@.states.len() <= i64::MAX,
        ensures
            exists|p: AutomatonView| is_product(self, other, p) && r == p.language_empty(),
            forall|p: AutomatonView| #[trigger] is_product(self, other, p) ==> r == p.language_empty(),
    {
        let p = Automate::create_intersection(self, other);
        let r = p.is_language_empty();
        assert forall|q: AutomatonView| #[trigger] is_product(self, other, q) implies r == q.language_empty() by {
            law_product_unique(self, other, p@, q);
        }
        r
    }

    /// True iff every word accepted by `self` is accepted by `other`: the product of
    /// `self` with the complement of `other` has an empty language. False when the
    /// product has more states than identifiers.
    pub fn is_included_in(&self, other: &Automate) -> (r: bool)
        requires
            self.wf(),
            other.wf(),
        ensures
            exists|c: Automate|
                #![trigger c.wf()]
                c.wf() && complement_spec(other@, c@) && (if self@.states.len() * c@.states.len()
                    <= i64::MAX {
                    (exists|p: AutomatonView| is_product(self, &c, p) && r == p.language_empty())
                        && forall|p: AutomatonView| #[trigger] is_product(self, &c, p) ==> r == p.language_empty()
                } else {
                    !r
                }),
    {
        let c = Automate::create_complement(other);
        let n = self.states.len() as u64;
        let m = c.states.len() as u64;
        proof {
            vecset::lemma_len(self.states@);
            vecset::lemma_len(c.states@);
        }
        let fits = m == 0 || n <= (i64::MAX as u64) / m;
        proof {
            let nn = self.states@.len() as int;
            let mm = c.states@.len() as int;
            assert(n == nn && m == mm);
            if mm > 0 {
                let q = i64::MAX as int / mm;
                assert((i64::MAX as u64) / m == q);
                assert(q * mm <= i64::MAX) by (nonlinear_arith)
                    requires
                        q == i64::MAX as int / mm,
                        mm > 0,
                ;
                assert(q * mm + mm > i64::MAX) by (nonlinear_arith)
                    requires
                        q == i64::MAX as int / mm,
                        mm > 0,
                ;
                if nn <= q {
                    assert(nn * mm <= q * mm) by (nonlinear_arith)
                        requires
                            nn <= q,
                            mm > 0,
                    ;
                } else {
                    assert(nn * mm > i64::MAX) by (nonlinear_arith)
                        requires
                            nn >= q + 1,
                            mm > 0,
                            q * mm + mm > i64::MAX,
                    ;
                }
            }
        }
        if !fits {
            assert(!(self@.states.len() * c@.states.len() <= i64::MAX));
            return false;
        }
        let r = self.has_empty_intersection_with(&c);
        assert(c.wf() && complement_spec(other@, c@));
        r
    }

    /// The symbols of both automata.
    fn common_symbols(lhs: &Automate, rhs: &Automate) -> (r: Vec<char>)
        requires
            lhs.wf(),
            rhs.wf(),
        ensures
            r@.to_set() == lhs@.symbols.intersect(rhs@.symbols),
            r@.no_duplicates(),
    {
        let mut r: Vec<char> = Vec::new();
        let mut i: usize = 0;
        while i < lhs.alphabet.len()
            invariant
                lhs.wf(),
                rhs.wf(),
                i <= lhs.alphabet.len(),
                r@.no_duplicates(),
                forall|c: char| #[trigger] r@.contains(c) <==> (lhs.alphabet@.subrange(0, i as int).contains(c) && rhs@.symbols.contains(c)),
            decreases lhs.alphabet.len() - i,
        {
            let c = lhs.alphabet[i];
            proof {
                vecset::lemma_prefix_contains(lhs.alphabet@, i as int);
                vecset::lemma_push_contains(r@, c);
                if r@.contains(c) {
                    let k = choose|k: int| 0 <= k < i && lhs.alphabet@.subrange(0, i as int)[k] == c;
                    assert(lhs.alphabet@[k] == c);
                }
            }
            if rhs.has_symbol(c) {
                r.push(c);
            }
            i += 1;
        }
        assert(lhs.alphabet@.subrange(0, lhs.alphabet@.len() as int) =~= lhs.alphabet@);
        assert(r@.to_set() =~= lhs@.symbols.intersect(rhs@.symbols));
        r
    }
}

} // verus!
