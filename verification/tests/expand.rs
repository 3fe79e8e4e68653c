use sapio::error::{CompilationError, PolicyResource};
use sapio::expand::{expand, expand_clause, expand_inner, Operand, RecordedPolicyBudget};
use sapio::policy::{Clause, EmulatedProgram, ScriptPolicy};
use sapio::preflight::{contains_raw, reject_unresolved, validate_source};
use sapio::script::{Preflight, MAX_NODES, MAX_SCRIPT_BYTES};

/// Bound a program-bearing policy and charge its recorded alternatives to a
/// budget shared across a contract's actions; the number of alternatives.
fn record_program_alternatives(
    source: &ScriptPolicy,
    budget: &mut RecordedPolicyBudget,
) -> Result<usize, CompilationError> {
    Preflight::new(None).policy(source, 0)?;
    reject_unresolved(source)?;
    let alternatives = expand_inner(source, !contains_raw(source), false);
    budget.charge(&alternatives)?;
    Ok(alternatives.len())
}

fn program(payload: usize) -> ScriptPolicy {
    ScriptPolicy::Program(EmulatedProgram { program: vec![0; payload], parameters: vec![] })
}

fn truths(n: usize) -> ScriptPolicy {
    ScriptPolicy::Or((0..n).map(|_| ScriptPolicy::And(vec![])).collect())
}

#[test]
fn every_actions_program_records_share_one_payload_budget() {
    let source = ScriptPolicy::And(vec![program(65_536), truths(128)]);
    let mut budget = RecordedPolicyBudget::default();
    assert_eq!(record_program_alternatives(&source, &mut budget).unwrap(), 128);
    assert_eq!(record_program_alternatives(&source, &mut budget).unwrap(), 128);
    assert_eq!(
        record_program_alternatives(&source, &mut budget),
        Err(CompilationError::PolicyLimit {
            resource: PolicyResource::SourceScriptBytes,
            limit: MAX_SCRIPT_BYTES
        })
    );
}

#[test]
fn expanded_native_subtrees_are_bounded_before_record_cloning() {
    let native = Clause::Threshold(1_024, (0..1_024).map(|_| key(1)).collect());
    let source = ScriptPolicy::And(vec![program(0), ScriptPolicy::Miniscript(native), truths(64)]);
    // The source policy and its reference expansion fit; copied native
    // subtrees would exceed the aggregate policy-node budget.
    validate_source(&source).unwrap();
    assert_eq!(
        record_program_alternatives(&source, &mut RecordedPolicyBudget::default()),
        Err(CompilationError::PolicyLimit { resource: PolicyResource::PolicyNodes, limit: MAX_NODES })
    );
}

fn key(b: u8) -> Clause {
    Clause::Key(vec![b; 32])
}

fn key_byte(op: &Operand<'_>) -> Option<u8> {
    match op {
        Operand::Miniscript(Clause::Key(k)) => Some(k[0]),
        _ => None,
    }
}

fn shape(alts: &[Vec<Operand<'_>>]) -> Vec<Vec<Option<u8>>> {
    alts.iter().map(|ops| ops.iter().map(key_byte).collect()).collect()
}

#[test]
fn choices_and_one_of_thresholds_split_into_alternatives() {
    let c = Clause::Or(vec![
        (1, key(1)),
        (1, Clause::Threshold(1, vec![key(2), key(3)])),
    ]);
    let alts = expand_clause(&c);
    assert_eq!(shape(&alts), vec![vec![Some(1)], vec![Some(2)], vec![Some(3)]]);
}

#[test]
fn other_thresholds_and_conjunctions_stay_one_operand() {
    let c = Clause::Threshold(2, vec![key(1), key(2), key(3)]);
    let alts = expand_clause(&c);
    assert_eq!(alts.len(), 1);
    assert_eq!(alts[0].len(), 1);
    assert!(matches!(alts[0][0], Operand::Miniscript(Clause::Threshold(2, _))));
    let a = Clause::And(vec![key(1), key(2)]);
    assert!(matches!(expand_clause(&a)[0][0], Operand::Miniscript(Clause::And(_))));
}

#[test]
fn conjunctions_join_every_pair_of_alternatives_in_order() {
    let p = ScriptPolicy::And(vec![
        ScriptPolicy::Or(vec![
            ScriptPolicy::Miniscript(key(1)),
            ScriptPolicy::Miniscript(key(2)),
        ]),
        ScriptPolicy::Miniscript(Clause::Or(vec![(1, key(3)), (1, key(4))])),
    ]);
    let alts = expand(&p);
    assert_eq!(
        shape(&alts),
        vec![
            vec![Some(1), Some(3)],
            vec![Some(1), Some(4)],
            vec![Some(2), Some(3)],
            vec![Some(2), Some(4)],
        ]
    );
    // The expansion has as many alternatives and operands as preflight counts.
    let counted = Preflight::new(None).policy(&p, 0).unwrap();
    assert_eq!(counted.alternatives, alts.len());
    assert_eq!(counted.operands, alts.iter().map(|a| a.len()).sum::<usize>());
}

#[test]
fn retained_native_choices_stay_whole_inside_a_conjunction() {
    let p = ScriptPolicy::And(vec![
        ScriptPolicy::Script(vec![0x51]),
        ScriptPolicy::Miniscript(Clause::Or(vec![(1, key(3)), (1, key(4))])),
    ]);
    let retained = expand_inner(&p, true, false);
    assert_eq!(retained.len(), 1);
    assert!(matches!(retained[0][0], Operand::Script(s) if s == &vec![0x51]));
    assert!(matches!(retained[0][1], Operand::Miniscript(Clause::Or(_))));
    let split = expand_inner(&p, false, false);
    assert_eq!(split.len(), 2);
}

#[test]
fn an_empty_choice_leaves_a_conjunction_without_alternatives() {
    let p = ScriptPolicy::And(vec![
        ScriptPolicy::Or(vec![]),
        ScriptPolicy::Miniscript(key(1)),
    ]);
    assert!(expand(&p).is_empty());
    let truth = ScriptPolicy::And(vec![]);
    let alts = expand(&truth);
    assert_eq!(alts.len(), 1);
    assert!(alts[0].is_empty());
}

#[test]
fn recorded_budget_counts_only_program_alternatives() {
    let program = EmulatedProgram { program: vec![1, 2, 3], parameters: vec![4, 5] };
    let p = ScriptPolicy::Or(vec![
        ScriptPolicy::And(vec![
            ScriptPolicy::Program(program.clone()),
            ScriptPolicy::Script(vec![0x51, 0x52]),
        ]),
        ScriptPolicy::Miniscript(key(9)),
    ]);
    let alts = expand(&p);
    assert_eq!(alts.len(), 2);
    let mut budget = RecordedPolicyBudget::default();
    budget.charge(&alts).unwrap();
    // One conjunction node and two operands; five program bytes and two
    // fragment bytes. The native alternative holds no program.
    assert_eq!(budget.0.nodes, 3);
    assert_eq!(budget.0.payload_bytes, 7);
}

#[test]
fn recorded_budget_refuses_payload_beyond_the_limit() {
    let program = EmulatedProgram { program: vec![0; 8], parameters: vec![] };
    let p = ScriptPolicy::Program(program);
    let alts = expand(&p);
    let mut budget = RecordedPolicyBudget::default();
    budget.0.payload_bytes = MAX_SCRIPT_BYTES - 4;
    assert_eq!(
        budget.charge(&alts),
        Err(CompilationError::PolicyLimit {
            resource: PolicyResource::SourceScriptBytes,
            limit: MAX_SCRIPT_BYTES,
        })
    );
}
