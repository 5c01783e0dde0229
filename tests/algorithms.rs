use automata::Automate;

fn equivalent(a: &Automate, b: &Automate) -> bool {
    a.is_included_in(b) && b.is_included_in(a)
}

/// Words over {a, b} that end with "ab"; nondeterministic, with two initial states.
fn ends_with_ab() -> Automate {
    let mut a = Automate::new();
    assert!(a.add_symbol('a'));
    assert!(a.add_symbol('b'));
    for s in 0..=2 {
        assert!(a.add_state(s));
    }
    a.set_state_initial(0);
    a.set_state_final(2);
    assert!(a.add_transition(0, 'a', 0));
    assert!(a.add_transition(0, 'b', 0));
    assert!(a.add_transition(0, 'a', 1));
    assert!(a.add_transition(1, 'b', 2));
    a
}

/// Words over {a, b} with an even number of a; deterministic and complete.
fn even_a() -> Automate {
    let mut a = Automate::new();
    assert!(a.add_symbol('a'));
    assert!(a.add_symbol('b'));
    assert!(a.add_state(0));
    assert!(a.add_state(1));
    a.set_state_initial(0);
    a.set_state_final(0);
    assert!(a.add_transition(0, 'a', 1));
    assert!(a.add_transition(1, 'a', 0));
    assert!(a.add_transition(0, 'b', 0));
    assert!(a.add_transition(1, 'b', 1));
    a
}

fn words() -> Vec<&'static str> {
    vec!["", "a", "b", "ab", "ba", "aa", "bb", "aab", "abab", "abba", "bab", "aaab", "abb", "baab"]
}

fn sorted(mut v: Vec<i64>) -> Vec<i64> {
    v.sort();
    v
}

#[test]
fn structural_queries() {
    let a = ends_with_ab();
    assert!(!a.is_deteministic());
    assert!(!a.is_complete());
    assert!(!a.has_epsilon_transition());
    let e = even_a();
    assert!(e.is_deteministic());
    assert!(e.is_complete());
}

#[test]
fn epsilon_transition_breaks_determinism() {
    let mut e = even_a();
    assert!(e.add_transition(0, Automate::EPSILON, 1));
    assert!(e.has_epsilon_transition());
    assert!(!e.is_deteministic());
}

#[test]
fn make_transition_is_one_step() {
    let a = ends_with_ab();
    assert_eq!(sorted(a.make_transition(&vec![0], 'a')), vec![0, 1]);
    assert_eq!(sorted(a.make_transition(&vec![0, 1], 'b')), vec![0, 2]);
    assert_eq!(a.make_transition(&vec![2], 'a'), Vec::<i64>::new());
}

#[test]
fn read_string_follows_epsilon_closures() {
    let mut a = Automate::new();
    assert!(a.add_symbol('x'));
    for s in 0..=3 {
        assert!(a.add_state(s));
    }
    a.set_state_initial(0);
    a.set_state_final(3);
    assert!(a.add_transition(0, Automate::EPSILON, 1));
    assert!(a.add_transition(1, 'x', 2));
    assert!(a.add_transition(2, Automate::EPSILON, 3));
    assert_eq!(sorted(a.read_string("")), vec![0, 1]);
    assert_eq!(sorted(a.read_string("x")), vec![2, 3]);
    assert_eq!(a.read_string("xx"), Vec::<i64>::new());
    assert!(a.accepts("x"));
    assert!(!a.accepts(""));
    assert!(!a.accepts("xx"));
}

#[test]
fn read_string_on_invalid_automaton_is_empty() {
    let mut a = Automate::new();
    assert!(a.add_state(0));
    a.set_state_initial(0);
    a.set_state_final(0);
    assert_eq!(a.read_string(""), Vec::<i64>::new());
    assert!(!a.accepts(""));
}

#[test]
fn accepts_words_ending_with_ab() {
    let a = ends_with_ab();
    assert!(a.accepts("ab"));
    assert!(a.accepts("abab"));
    assert!(a.accepts("bab"));
    assert!(!a.accepts(""));
    assert!(!a.accepts("ba"));
    assert!(!a.accepts("abb"));
}

#[test]
fn language_empty_without_reachable_final() {
    let mut a = Automate::new();
    assert!(a.add_symbol('a'));
    for s in 0..=2 {
        assert!(a.add_state(s));
    }
    a.set_state_initial(0);
    a.set_state_final(2);
    assert!(a.add_transition(0, 'a', 1));
    assert!(a.add_transition(2, 'a', 1));
    assert!(a.is_language_empty());
    assert!(a.add_transition(1, 'a', 2));
    assert!(!a.is_language_empty());
}

#[test]
fn language_not_empty_when_initial_is_final() {
    let mut a = Automate::new();
    assert!(a.add_symbol('a'));
    assert!(a.add_state(0));
    a.set_state_initial(0);
    assert!(a.is_language_empty());
    a.set_state_final(0);
    assert!(!a.is_language_empty());
}

#[test]
fn language_empty_for_empty_automaton() {
    let a = Automate::new();
    assert!(a.is_language_empty());
}

#[test]
fn remove_non_accessible_states_drops_unreached() {
    let mut a = ends_with_ab();
    assert!(a.add_state(7));
    assert!(a.add_transition(7, 'a', 2));
    a.remove_non_accessible_states();
    assert!(!a.has_state(7));
    assert!(!a.has_transition(7, 'a', 2));
    assert_eq!(3, a.count_states());
    assert_eq!(4, a.count_transitions());
}

#[test]
fn remove_non_co_accessible_states_drops_dead_ends() {
    let mut a = ends_with_ab();
    assert!(a.add_state(5));
    assert!(a.add_transition(2, 'a', 5));
    a.remove_non_co_accessible_states();
    assert!(!a.has_state(5));
    assert!(!a.has_transition(2, 'a', 5));
    assert_eq!(3, a.count_states());
}

#[test]
fn create_complete_adds_least_free_sink() {
    let a = ends_with_ab();
    let c = Automate::create_complete(&a);
    assert!(c.is_complete());
    assert_eq!(4, c.count_states());
    assert!(c.has_state(3));
    assert!(!c.is_state_final(3));
    assert!(c.has_transition(3, 'a', 3));
    assert!(c.has_transition(3, 'b', 3));
    assert!(c.has_transition(1, 'a', 3));
    assert!(c.has_transition(2, 'a', 3));
    assert!(c.has_transition(2, 'b', 3));
    assert!(!c.has_transition(0, 'a', 3));
    assert_eq!(9, c.count_transitions());
    for w in words() {
        assert_eq!(a.accepts(w), c.accepts(w));
    }
}

#[test]
fn create_complete_keeps_complete_automaton() {
    let e = even_a();
    let c = Automate::create_complete(&e);
    assert_eq!(2, c.count_states());
    assert_eq!(4, c.count_transitions());
}

#[test]
fn create_mirror_reverses() {
    let a = ends_with_ab();
    let m = Automate::create_mirror(&a);
    assert!(m.has_transition(2, 'b', 1));
    assert!(m.has_transition(1, 'a', 0));
    assert!(!m.has_transition(1, 'b', 2));
    assert!(m.is_state_initial(2));
    assert!(m.is_state_final(0));
    assert!(!m.is_state_initial(0));
    assert!(m.accepts("ba"));
    assert!(m.accepts("bab"));
    assert!(!m.accepts("ab"));
}

#[test]
fn create_deterministic_keeps_language() {
    let a = ends_with_ab();
    let d = Automate::create_deterministic(&a);
    assert!(d.is_deteministic());
    assert_eq!(3, d.count_states());
    for w in words() {
        assert_eq!(a.accepts(w), d.accepts(w));
    }
}

#[test]
fn create_deterministic_with_epsilon_and_two_initials() {
    let mut a = Automate::new();
    assert!(a.add_symbol('a'));
    assert!(a.add_symbol('b'));
    for s in 0..=3 {
        assert!(a.add_state(s));
    }
    a.set_state_initial(0);
    a.set_state_initial(2);
    a.set_state_final(1);
    a.set_state_final(3);
    assert!(a.add_transition(0, Automate::EPSILON, 1));
    assert!(a.add_transition(1, 'a', 0));
    assert!(a.add_transition(2, 'b', 3));
    let d = Automate::create_deterministic(&a);
    assert!(d.is_deteministic());
    for w in words() {
        assert_eq!(a.accepts(w), d.accepts(w));
    }
    assert!(d.accepts(""));
    assert!(d.accepts("aa"));
    assert!(d.accepts("b"));
    assert!(!d.accepts("ab"));
}

#[test]
fn create_complement_flips_language() {
    let e = even_a();
    let c = Automate::create_complement(&e);
    assert!(c.is_state_final(1));
    assert!(!c.is_state_final(0));
    for w in words() {
        assert_eq!(e.accepts(w), !c.accepts(w));
    }
    let a = ends_with_ab();
    let ca = Automate::create_complement(&a);
    assert!(ca.is_deteministic());
    assert!(ca.is_complete());
    for w in words() {
        assert_eq!(a.accepts(w), !ca.accepts(w));
    }
}

#[test]
fn complement_twice_is_equivalent() {
    let e = even_a();
    let cc = Automate::create_complement(&Automate::create_complement(&e));
    assert!(equivalent(&e, &cc));
}

#[test]
fn create_intersection_accepts_both() {
    let a = ends_with_ab();
    let e = even_a();
    let p = Automate::create_intersection(&a, &e);
    assert_eq!(6, p.count_states());
    assert_eq!(2, p.count_symbols());
    assert!(p.is_state_initial(0));
    for w in words() {
        assert_eq!(a.accepts(w) && e.accepts(w), p.accepts(w));
    }
    assert!(!a.has_empty_intersection_with(&e));
}

#[test]
fn intersection_steps_epsilon_on_one_side() {
    let mut a = Automate::new();
    assert!(a.add_symbol('a'));
    assert!(a.add_state(0));
    assert!(a.add_state(1));
    a.set_state_initial(0);
    a.set_state_final(1);
    assert!(a.add_transition(0, Automate::EPSILON, 1));
    let mut b = Automate::new();
    assert!(b.add_symbol('a'));
    assert!(b.add_state(0));
    b.set_state_initial(0);
    b.set_state_final(0);
    let p = Automate::create_intersection(&a, &b);
    assert!(p.has_transition(0, Automate::EPSILON, 1));
    assert!(p.accepts(""));
}

#[test]
fn disjoint_languages_have_empty_intersection() {
    let e = even_a();
    let c = Automate::create_complement(&e);
    assert!(e.has_empty_intersection_with(&c));
}

#[test]
fn inclusion() {
    let a = ends_with_ab();
    let mut all = Automate::new();
    assert!(all.add_symbol('a'));
    assert!(all.add_symbol('b'));
    assert!(all.add_state(0));
    all.set_state_initial(0);
    all.set_state_final(0);
    assert!(all.add_transition(0, 'a', 0));
    assert!(all.add_transition(0, 'b', 0));
    assert!(a.is_included_in(&all));
    assert!(!all.is_included_in(&a));
    assert!(!equivalent(&a, &all));
}

#[test]
fn inclusion_is_reflexive() {
    let a = ends_with_ab();
    assert!(equivalent(&a, &a));
    let e = even_a();
    assert!(equivalent(&e, &e));
    let d = Automate::create_deterministic(&a);
    assert!(equivalent(&a, &d));
}

#[test]
fn brzozowski_minimizes() {
    let mut a = ends_with_ab();
    assert!(a.add_state(3));
    a.set_state_final(3);
    assert!(a.add_transition(1, 'b', 3));
    let m = Automate::create_minimal_brzozowski(&a);
    assert!(m.is_deteministic());
    assert_eq!(3, m.count_states());
    for w in words() {
        assert_eq!(a.accepts(w), m.accepts(w));
    }
}

#[test]
fn moore_minimizes() {
    let mut a = ends_with_ab();
    assert!(a.add_state(3));
    a.set_state_final(3);
    assert!(a.add_transition(1, 'b', 3));
    let m = Automate::create_minimal_moore(&a);
    assert!(m.is_deteministic());
    assert!(m.is_complete());
    assert_eq!(3, m.count_states());
    for w in words() {
        assert_eq!(a.accepts(w), m.accepts(w));
    }
    assert!(equivalent(&a, &m));
}

#[test]
fn moore_merges_equivalent_states() {
    let mut a = Automate::new();
    assert!(a.add_symbol('a'));
    for s in 0..=3 {
        assert!(a.add_state(s));
    }
    a.set_state_initial(0);
    a.set_state_final(1);
    a.set_state_final(2);
    a.set_state_final(3);
    assert!(a.add_transition(0, 'a', 1));
    assert!(a.add_transition(1, 'a', 2));
    assert!(a.add_transition(2, 'a', 3));
    assert!(a.add_transition(3, 'a', 1));
    let m = Automate::create_minimal_moore(&a);
    assert_eq!(2, m.count_states());
    assert_eq!(2, m.count_transitions());
    assert!(!m.accepts(""));
    assert!(m.accepts("a"));
    assert!(m.accepts("aaaa"));
}

#[test]
fn minimization_of_empty_automaton_accepts_nothing() {
    let a = Automate::new();
    let m = Automate::create_minimal_moore(&a);
    assert!(m.is_language_empty());
    let b = Automate::create_minimal_brzozowski(&a);
    assert!(b.is_language_empty());
}
