use sapio::compose::{
    clause_eq, conjoin_guards, conjoin_source, contains_inscription, copy_clause, copy_policy,
    disjoin_source, is_trivial, optimizer_flatten_policy, policy_as_guards, source_alternatives,
};
use sapio::policy::{Clause, Inscription, ScriptPolicy};

fn key(b: u8) -> Clause {
    Clause::Key(vec![b; 32])
}

fn inscribed(b: u8) -> Clause {
    Clause::Inscribe(
        Box::new(Inscription::new(Some(b"text/plain".to_vec()), Some(vec![b]))),
        Box::new(key(b)),
    )
}

fn key_of(c: &Clause) -> Option<u8> {
    match c {
        Clause::Key(k) => Some(k[0]),
        _ => None,
    }
}

#[test]
fn equality_is_structural_and_copies_are_equal() {
    let c = Clause::Or(vec![(1, key(1)), (2, Clause::And(vec![key(2), Clause::After(10)]))]);
    assert!(clause_eq(&c, &copy_clause(&c)));
    let weight_differs = Clause::Or(vec![(2, key(1)), (2, Clause::And(vec![key(2), Clause::After(10)]))]);
    assert!(!clause_eq(&c, &weight_differs));
    assert!(!clause_eq(&key(1), &key(2)));
    assert!(!clause_eq(&Clause::Older(1), &Clause::After(1)));
    assert!(clause_eq(&inscribed(3), &copy_clause(&inscribed(3))));
}

#[test]
fn inscriptions_are_found_below_other_nodes() {
    assert!(contains_inscription(&inscribed(1)));
    assert!(contains_inscription(&Clause::Or(vec![(1, key(1)), (1, inscribed(2))])));
    assert!(contains_inscription(&Clause::Threshold(1, vec![key(1), inscribed(2)])));
    assert!(!contains_inscription(&Clause::And(vec![key(1), key(2)])));
}

#[test]
fn conjunction_drops_trivial_and_repeated_guards() {
    let (a, b, t) = (key(1), key(2), Clause::Trivial);
    assert!(matches!(conjoin_guards(&[]), Clause::Trivial));
    assert!(matches!(conjoin_guards(&[&t, &t]), Clause::Trivial));
    assert_eq!(key_of(&conjoin_guards(&[&t, &a, &a])), Some(1));
    match conjoin_guards(&[&a, &t, &b, &a]) {
        Clause::And(v) => {
            assert_eq!(v.len(), 2);
            assert_eq!(key_of(&v[0]), Some(1));
            assert_eq!(key_of(&v[1]), Some(2));
        }
        other => panic!("{:?}", other),
    }
    let c = key(3);
    match conjoin_guards(&[&a, &b, &c]) {
        Clause::Threshold(k, v) => {
            assert_eq!(k, 3);
            assert_eq!(v.len(), 3);
        }
        other => panic!("{:?}", other),
    }
}

#[test]
fn unsatisfiable_absorbs_the_conjunction() {
    let (a, u) = (key(1), Clause::Unsatisfiable);
    assert!(matches!(conjoin_guards(&[&a, &u, &a]), Clause::Unsatisfiable));
}

#[test]
fn inscribed_guards_keep_their_multiplicity() {
    let i = inscribed(7);
    match conjoin_guards(&[&i, &i]) {
        Clause::And(v) => assert_eq!(v.len(), 2),
        other => panic!("{:?}", other),
    }
}

#[test]
fn source_conjunction_keeps_raw_fragments_in_order() {
    let raw = ScriptPolicy::Script(vec![0x51]);
    let trivial = ScriptPolicy::And(vec![]);
    let native = ScriptPolicy::Miniscript(key(1));
    match conjoin_source(&[&native, &trivial, &raw]) {
        ScriptPolicy::And(v) => {
            assert_eq!(v.len(), 2);
            assert!(matches!(&v[0], ScriptPolicy::Miniscript(Clause::Key(_))));
            assert!(matches!(&v[1], ScriptPolicy::Script(s) if s == &vec![0x51]));
        }
        other => panic!("{:?}", other),
    }
    assert!(matches!(conjoin_source(&[&trivial, &raw]), ScriptPolicy::Script(_)));
    let other = ScriptPolicy::Miniscript(key(2));
    match conjoin_source(&[&native, &other, &native]) {
        ScriptPolicy::Miniscript(Clause::And(v)) => assert_eq!(v.len(), 2),
        other => panic!("{:?}", other),
    }
    assert!(matches!(conjoin_source(&[]), ScriptPolicy::Miniscript(Clause::Trivial)));
}

#[test]
fn source_choice_builds_a_one_of_threshold_for_native_policies() {
    assert!(matches!(
        disjoin_source(vec![]),
        ScriptPolicy::Miniscript(Clause::Unsatisfiable)
    ));
    assert!(matches!(
        disjoin_source(vec![ScriptPolicy::Script(vec![1])]),
        ScriptPolicy::Script(_)
    ));
    match disjoin_source(vec![
        ScriptPolicy::Miniscript(key(1)),
        ScriptPolicy::Miniscript(key(2)),
    ]) {
        ScriptPolicy::Miniscript(Clause::Threshold(1, v)) => assert_eq!(v.len(), 2),
        other => panic!("{:?}", other),
    }
    match disjoin_source(vec![ScriptPolicy::Miniscript(key(1)), ScriptPolicy::Script(vec![1])]) {
        ScriptPolicy::Or(v) => assert_eq!(v.len(), 2),
        other => panic!("{:?}", other),
    }
}

#[test]
fn splitting_a_choice_recovers_its_alternatives_in_order() {
    let flat = optimizer_flatten_policy(Clause::Or(vec![
        (1, key(1)),
        (1, Clause::Threshold(1, vec![key(2), key(3)])),
        (1, Clause::Threshold(2, vec![key(4), key(5)])),
    ]));
    assert_eq!(flat.len(), 4);
    assert_eq!(key_of(&flat[0]), Some(1));
    assert_eq!(key_of(&flat[2]), Some(3));
    assert!(matches!(flat[3], Clause::Threshold(2, _)));

    let choice = disjoin_source(vec![
        ScriptPolicy::Miniscript(key(1)),
        ScriptPolicy::Miniscript(key(2)),
    ]);
    let alternatives = source_alternatives(choice);
    assert_eq!(alternatives.len(), 2);
    assert!(matches!(&alternatives[1], ScriptPolicy::Miniscript(Clause::Key(k)) if k[0] == 2));

    let mixed = ScriptPolicy::Or(vec![
        ScriptPolicy::Script(vec![9]),
        ScriptPolicy::Miniscript(Clause::Or(vec![(1, key(1)), (1, key(2))])),
    ]);
    let alternatives = source_alternatives(mixed);
    assert_eq!(alternatives.len(), 3);
    assert!(matches!(&alternatives[0], ScriptPolicy::Script(_)));
}

#[test]
fn trivial_policies_stand_for_no_guard() {
    assert!(is_trivial(&ScriptPolicy::Miniscript(Clause::Trivial)));
    assert!(is_trivial(&ScriptPolicy::And(vec![])));
    assert!(!is_trivial(&ScriptPolicy::Or(vec![])));
    assert!(policy_as_guards(ScriptPolicy::And(vec![])).is_empty());
    let guards = policy_as_guards(ScriptPolicy::Miniscript(key(1)));
    assert_eq!(guards.len(), 1);
    let copy = copy_policy(&guards[0]);
    assert!(matches!(copy, ScriptPolicy::Miniscript(Clause::Key(_))));
}
