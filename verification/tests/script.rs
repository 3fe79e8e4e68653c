use sapio::error::{CompilationError, PolicyResource};
use sapio::script::{
    append_branches, append_script, encoded_size, Expansion, Preflight, MAX_ALTERNATIVES,
    MAX_BRANCHES, MAX_DEPTH, MAX_EXPANDED_OPERANDS, MAX_NODES, MAX_SCRIPT_BYTES,
};

fn limit(resource: PolicyResource, limit: usize) -> CompilationError {
    CompilationError::PolicyLimit { resource, limit }
}

#[test]
fn expansion_counts_are_checked_against_their_limits() {
    assert_eq!(
        Expansion::checked(Some(MAX_ALTERNATIVES), Some(0), Some(0)).unwrap().alternatives,
        MAX_ALTERNATIVES
    );
    assert_eq!(
        Expansion::checked(Some(MAX_ALTERNATIVES + 1), Some(0), Some(0)),
        Err(limit(PolicyResource::TaprootAlternatives, MAX_ALTERNATIVES))
    );
    assert_eq!(
        Expansion::checked(None, Some(0), Some(0)),
        Err(limit(PolicyResource::TaprootAlternatives, MAX_ALTERNATIVES))
    );
    assert_eq!(
        Expansion::checked(Some(1), Some(MAX_EXPANDED_OPERANDS + 1), Some(0)),
        Err(limit(PolicyResource::ExpandedOperands, MAX_EXPANDED_OPERANDS))
    );
    assert_eq!(
        Expansion::checked(Some(1), Some(1), None),
        Err(limit(PolicyResource::ExpandedScriptBytes, MAX_SCRIPT_BYTES))
    );
}

#[test]
fn choice_adds_and_conjunction_multiplies_alternatives() {
    let a = Expansion { alternatives: 2, operands: 3, payload_bytes: 10 };
    let b = Expansion { alternatives: 5, operands: 7, payload_bytes: 4 };
    assert_eq!(
        a.or(b).unwrap(),
        Expansion { alternatives: 7, operands: 10, payload_bytes: 14 }
    );
    // Every alternative of one side is paired with every alternative of the
    // other: 3 * 5 + 7 * 2 operands and 10 * 5 + 4 * 2 bytes.
    assert_eq!(
        a.and(b).unwrap(),
        Expansion { alternatives: 10, operands: 29, payload_bytes: 58 }
    );
    assert_eq!(Expansion::empty().or(a).unwrap(), a);
    assert_eq!(Expansion::truth().and(a).unwrap(), a);
    assert_eq!(Expansion::empty().and(a).unwrap().alternatives, 0);
    assert_eq!(Expansion::one().operands, 1);
}

#[test]
fn cartesian_products_beyond_the_limit_are_refused() {
    let wide = Expansion { alternatives: 64, operands: 64, payload_bytes: 0 };
    assert_eq!(
        wide.and(wide),
        Err(limit(PolicyResource::TaprootAlternatives, MAX_ALTERNATIVES))
    );
    let huge = Expansion { alternatives: usize::MAX, operands: 0, payload_bytes: 0 };
    assert_eq!(
        huge.or(Expansion::one()),
        Err(limit(PolicyResource::TaprootAlternatives, MAX_ALTERNATIVES))
    );
}

#[test]
fn encoded_sizes_include_separators() {
    assert_eq!(encoded_size(10, 5, true), Ok(16));
    assert_eq!(encoded_size(10, 5, false), Ok(15));
    assert_eq!(encoded_size(MAX_SCRIPT_BYTES - 1, 1, false), Ok(MAX_SCRIPT_BYTES));
    assert_eq!(
        encoded_size(MAX_SCRIPT_BYTES - 1, 1, true),
        Err(limit(PolicyResource::EncodedScriptBytes, MAX_SCRIPT_BYTES))
    );
    assert_eq!(
        encoded_size(usize::MAX, 1, false),
        Err(limit(PolicyResource::EncodedScriptBytes, MAX_SCRIPT_BYTES))
    );
}

#[test]
fn appended_scripts_are_joined_by_verify() {
    let mut bytes = Vec::new();
    let mut has_predicate = false;
    let mut encoded = 0usize;
    append_script(&mut bytes, &[0x51], &mut has_predicate, &mut encoded).unwrap();
    append_script(&mut bytes, &[0x52, 0x53], &mut has_predicate, &mut encoded).unwrap();
    assert_eq!(bytes, [0x51, 0x69, 0x52, 0x53]);
    assert!(has_predicate);
    assert_eq!(encoded, 4);
    let mut full = MAX_SCRIPT_BYTES;
    assert!(append_script(&mut bytes, &[0x54], &mut has_predicate, &mut full).is_err());
    assert_eq!(bytes, [0x51, 0x69, 0x52, 0x53]);
    assert_eq!(full, MAX_SCRIPT_BYTES);
}

#[test]
fn preflight_counts_nodes_depth_and_payload() {
    let mut p = Preflight::new(None);
    p.visit(MAX_DEPTH).unwrap();
    assert_eq!(p.nodes, 1);
    assert_eq!(p.visit(MAX_DEPTH + 1), Err(limit(PolicyResource::PolicyDepth, MAX_DEPTH)));
    assert_eq!(p.nodes, 1);
    let mut full = Preflight { lowering: None, nodes: MAX_NODES - 1, payload_bytes: 0 };
    full.visit(0).unwrap();
    assert_eq!(full.visit(0), Err(limit(PolicyResource::PolicyNodes, MAX_NODES)));
    p.payload(MAX_SCRIPT_BYTES).unwrap();
    assert_eq!(
        p.payload(1),
        Err(limit(PolicyResource::SourceScriptBytes, MAX_SCRIPT_BYTES))
    );
    assert_eq!(p.payload_bytes, MAX_SCRIPT_BYTES);
}

#[test]
fn contract_branches_share_one_budget() {
    let mut branches = Vec::new();
    let mut bytes = 0usize;
    append_branches(&mut branches, &mut bytes, vec![vec![1, 2], vec![3]]).unwrap();
    assert_eq!(bytes, 3);
    assert_eq!(branches.len(), 2);
    let mut many = vec![vec![0u8]; MAX_BRANCHES - 1];
    let mut total = MAX_BRANCHES - 1;
    assert_eq!(
        append_branches(&mut many, &mut total, vec![vec![1], vec![2]]),
        Err(limit(PolicyResource::ContractBranches, MAX_BRANCHES))
    );
    assert_eq!(many.len(), MAX_BRANCHES);
    let mut big = MAX_SCRIPT_BYTES;
    let mut some = Vec::new();
    assert_eq!(
        append_branches(&mut some, &mut big, vec![vec![1]]),
        Err(limit(PolicyResource::ContractScriptBytes, MAX_SCRIPT_BYTES))
    );
}

use sapio::error::PolicyFault;
use sapio::policy::{Clause, EmulatedProgram, Inscription, LoweringPlan, ScriptPolicy};
use sapio::preflight::{validate_policy, validate_source};

fn raw(n: u8) -> ScriptPolicy {
    ScriptPolicy::Script(vec![0x50 + n])
}

fn choice() -> ScriptPolicy {
    ScriptPolicy::Or(vec![raw(1), raw(2)])
}

#[test]
fn cartesian_expansion_is_bounded_before_materialization() {
    let at_limit = ScriptPolicy::And((0..10).map(|_| choice()).collect());
    assert_eq!(Preflight::new(None).policy(&at_limit, 0).unwrap().alternatives, 1_024);
    let too_many = ScriptPolicy::And((0..11).map(|_| choice()).collect());
    assert_eq!(
        Preflight::new(None).policy(&too_many, 0),
        Err(limit(PolicyResource::TaprootAlternatives, MAX_ALTERNATIVES))
    );
    let mut large_product = vec![ScriptPolicy::Or((0..1_024).map(|_| raw(1)).collect())];
    large_product.extend((0..64).map(|_| raw(2)));
    assert_eq!(
        Preflight::new(None).policy(&ScriptPolicy::And(large_product), 0),
        Err(limit(PolicyResource::ExpandedOperands, MAX_EXPANDED_OPERANDS))
    );
}

#[test]
fn source_depth_and_nodes_are_checked_before_recursive_compilation() {
    let mut deep = raw(1);
    for _ in 0..=MAX_DEPTH {
        deep = ScriptPolicy::And(vec![deep]);
    }
    assert_eq!(
        Preflight::new(None).policy(&deep, 0),
        Err(limit(PolicyResource::PolicyDepth, MAX_DEPTH))
    );
    assert_eq!(
        Preflight::new(None).policy(&ScriptPolicy::And((0..MAX_NODES).map(|_| raw(1)).collect()), 0),
        Err(limit(PolicyResource::PolicyNodes, MAX_NODES))
    );
}

#[test]
fn program_payload_expansion_is_bounded_before_source_is_copied() {
    let program = |bytes: usize| {
        ScriptPolicy::Program(EmulatedProgram { program: vec![0; bytes], parameters: vec![] })
    };
    let source = ScriptPolicy::And(vec![
        program(65_536),
        ScriptPolicy::Or((0..257).map(|_| ScriptPolicy::And(vec![])).collect()),
    ]);
    assert_eq!(
        Preflight::new(None).policy(&source, 0),
        Err(limit(PolicyResource::ExpandedScriptBytes, MAX_SCRIPT_BYTES))
    );
    let fits = ScriptPolicy::And(vec![
        program(65_536),
        ScriptPolicy::Or((0..256).map(|_| ScriptPolicy::And(vec![])).collect()),
    ]);
    let mut p = Preflight::new(None);
    let expansion = p.policy(&fits, 0).unwrap();
    assert_eq!(expansion.payload_bytes, 65_536 * 256);
    assert_eq!(p.payload_bytes, 65_536);
}

#[test]
fn empty_connectives_have_boolean_identity_semantics() {
    assert_eq!(Preflight::new(None).policy(&ScriptPolicy::Or(vec![]), 0).unwrap().alternatives, 0);
    assert_eq!(
        Preflight::new(None).policy(&ScriptPolicy::And(vec![]), 0).unwrap(),
        Expansion { alternatives: 1, operands: 0, payload_bytes: 0 }
    );
    assert_eq!(
        Preflight::new(None)
            .policy(&ScriptPolicy::And(vec![ScriptPolicy::Or(vec![]), raw(1)]), 0)
            .unwrap()
            .alternatives,
        0
    );
}

#[test]
fn unreachable_native_policy_still_requires_structural_validation() {
    let policy = ScriptPolicy::And(vec![
        ScriptPolicy::Or(vec![]),
        ScriptPolicy::Miniscript(Clause::And(vec![])),
    ]);
    assert_eq!(
        Preflight::new(None).policy(&policy, 0),
        Err(CompilationError::InvalidPolicy(PolicyFault::NonBinaryAnd))
    );
}

#[test]
fn malformed_native_policies_are_named() {
    assert_eq!(
        validate_policy(&Clause::Older(0)),
        Err(CompilationError::InvalidPolicy(PolicyFault::ZeroRelativeLock))
    );
    assert_eq!(
        validate_policy(&Clause::Or(vec![(1, Clause::Trivial)])),
        Err(CompilationError::InvalidPolicy(PolicyFault::NonBinaryOr))
    );
    assert_eq!(
        validate_policy(&Clause::Threshold(3, vec![Clause::Trivial, Clause::Trivial])),
        Err(CompilationError::InvalidPolicy(PolicyFault::InvalidThreshold))
    );
    assert_eq!(
        validate_policy(&Clause::And(vec![Clause::After(0), Clause::Older(0)])),
        Err(CompilationError::InvalidPolicy(PolicyFault::ZeroAbsoluteLock))
    );
    assert!(validate_policy(&Clause::Inscribe(
        Box::new(Inscription::new(None, Some(vec![1]))),
        Box::new(Clause::Or(vec![(1, Clause::Older(5)), (1, Clause::After(5))])),
    ))
    .is_ok());
}

#[test]
fn native_choices_split_and_inscriptions_count_their_envelope() {
    let key = || Clause::Key(vec![2; 32]);
    let choice = Clause::Or(vec![(1, key()), (1, Clause::Older(1))]);
    let mut p = Preflight::new(None);
    assert_eq!(p.clause(&choice, 0, true).unwrap().alternatives, 2);
    assert_eq!(p.nodes, 3);
    let kept = p.clause(&Clause::Or(vec![(1, key()), (1, key())]), 0, false).unwrap();
    assert_eq!(kept.alternatives, 1);
    let inscribed = Clause::Inscribe(
        Box::new(Inscription::new(Some(b"text/plain".to_vec()), Some(vec![0; 1025]))),
        Box::new(key()),
    );
    let mut q = Preflight::new(None);
    assert_eq!(q.clause(&inscribed, 0, true).unwrap().payload_bytes, 1035);
    assert_eq!(q.payload_bytes, 1035);
}

#[test]
fn generated_signer_nodes_are_bounded_before_any_wrapper_is_resolved() {
    let lowering = || LoweringPlan::CtvEmulation { signers: vec![vec![1; 32]; 8], threshold: 2 };
    let wrapped = || ScriptPolicy::Emulatable(vec![1; 32]);
    let at_limit = ScriptPolicy::And((0..6_553).map(|_| wrapped()).collect());
    Preflight::new(Some(lowering())).policy(&at_limit, 0).unwrap();
    let over_limit = ScriptPolicy::And((0..6_554).map(|_| wrapped()).collect());
    validate_source(&over_limit).unwrap();
    assert_eq!(
        Preflight::new(Some(lowering())).policy(&over_limit, 0),
        Err(limit(PolicyResource::PolicyNodes, MAX_NODES))
    );
    let any_one = LoweringPlan::CtvEmulation { signers: vec![vec![1; 32]; 3], threshold: 1 };
    assert_eq!(
        Preflight::new(Some(any_one)).policy(&wrapped(), 0).unwrap().alternatives,
        3
    );
    assert_eq!(Preflight::new(Some(LoweringPlan::Native)).policy(&wrapped(), 0).unwrap().alternatives, 1);
}

#[test]
fn signer_choices_respect_leaf_and_cartesian_alternative_limits() {
    let signers = |n: usize, threshold: usize| LoweringPlan::CtvEmulation {
        signers: (0..n).map(|i| vec![(i % 256) as u8; 32]).collect(),
        threshold,
    };
    let wrapped = |b: u8| ScriptPolicy::Emulatable(vec![b; 32]);
    assert_eq!(
        Preflight::new(Some(signers(MAX_ALTERNATIVES + 1, 1))).policy(&wrapped(1), 0),
        Err(limit(PolicyResource::TaprootAlternatives, MAX_ALTERNATIVES))
    );
    let policy = |count: u8| {
        ScriptPolicy::And(
            (0..count)
                // Raw separators retain independently selectable runs.
                .flat_map(|index| [wrapped(index), raw(index)])
                .collect(),
        )
    };
    let expansion = Preflight::new(Some(signers(2, 1))).policy(&policy(10), 0).unwrap();
    assert_eq!(expansion.alternatives, MAX_ALTERNATIVES);
    assert_eq!(
        Preflight::new(Some(signers(2, 1))).policy(&policy(11), 0),
        Err(limit(PolicyResource::TaprootAlternatives, MAX_ALTERNATIVES))
    );
}

#[test]
fn generated_threshold_depth_is_checked_before_key_derivation() {
    let lowering = || LoweringPlan::CtvEmulation { signers: vec![vec![1; 32], vec![2; 32]], threshold: 2 };
    let mut policy = ScriptPolicy::Emulatable(vec![1; 32]);
    for _ in 0..MAX_DEPTH - 2 {
        policy = ScriptPolicy::Or(vec![policy]);
    }
    Preflight::new(Some(lowering())).policy(&policy, 0).unwrap();
    policy = ScriptPolicy::Or(vec![policy]);
    validate_source(&policy).unwrap();
    assert_eq!(
        Preflight::new(Some(lowering())).policy(&policy, 0),
        Err(limit(PolicyResource::PolicyDepth, MAX_DEPTH))
    );
}
