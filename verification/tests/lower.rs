use sapio::error::{CompilationError, PolicyResource};
use sapio::expand::{expand, Operand};
use sapio::lower::{compile_alternative, native_runs, OP_TRUE};
use sapio::policy::{Clause, ScriptPolicy};
use sapio::preflight::{reject_unresolved, validate_source};
use sapio::script::{MAX_ALTERNATIVES, MAX_SCRIPT_BYTES, OP_VERIFY};

const OP_DROP: u8 = 0x75;

/// Lower a source policy whose alternatives hold raw fragments only:
/// validate it, refuse unresolved predicates, then assemble each
/// alternative with the encoded bytes shared across them.
fn lower_raw_policy(policy: &ScriptPolicy) -> Result<Vec<Vec<u8>>, CompilationError> {
    validate_source(policy)?;
    reject_unresolved(policy)?;
    let mut encoded = 0;
    let mut scripts = vec![];
    for operands in expand(policy) {
        assert!(native_runs(&operands).is_empty());
        scripts.push(compile_alternative(&operands, &[], &mut encoded)?);
    }
    Ok(scripts)
}

/// A fragment that pushes a small number, drops it and leaves true.
fn raw_small(value: u8) -> ScriptPolicy {
    let op = if value == 0 { 0 } else { 0x50 + value };
    ScriptPolicy::Script(vec![op, OP_DROP, OP_TRUE])
}

fn bytes(policy: &ScriptPolicy) -> Vec<u8> {
    match policy {
        ScriptPolicy::Script(b) => b.clone(),
        _ => unreachable!(),
    }
}

fn raw_bytes(size: usize) -> ScriptPolicy {
    let mut bytes = vec![0x61; size];
    if let Some(last) = bytes.last_mut() {
        *last = OP_TRUE;
    }
    ScriptPolicy::Script(bytes)
}

#[test]
fn nested_alternatives_expand_in_declared_operand_order() {
    let left: Vec<_> = (0..5).map(raw_small).collect();
    let expected_left: Vec<_> = left.iter().map(bytes).collect();
    let expected_right: Vec<_> = (10..14).map(|v| bytes(&raw_small(v))).collect();
    let policy = ScriptPolicy::And(vec![
        ScriptPolicy::Or(left),
        ScriptPolicy::Or(vec![
            ScriptPolicy::Or((10..12).map(raw_small).collect()),
            ScriptPolicy::Or((12..14).map(raw_small).collect()),
        ]),
    ]);
    let scripts = lower_raw_policy(&policy).unwrap();
    assert_eq!(scripts.len(), 20);
    for (index, script) in scripts.iter().enumerate() {
        let mut expected = expected_left[index / 4].clone();
        expected.push(OP_VERIFY);
        expected.extend_from_slice(&expected_right[index % 4]);
        assert_eq!(script, &expected);
    }
}

#[test]
fn the_empty_conjunction_is_explicitly_true() {
    let mut encoded = 7;
    assert_eq!(compile_alternative(&[], &[], &mut encoded).unwrap(), vec![OP_TRUE]);
    assert_eq!(encoded, 8);
}

#[test]
fn raw_byte_repetition_is_rejected_before_cartesian_materialization() {
    let fragment = || raw_bytes(MAX_SCRIPT_BYTES / MAX_ALTERNATIVES + 1);
    let choice = || ScriptPolicy::Or(vec![ScriptPolicy::And(vec![]), ScriptPolicy::And(vec![])]);
    for raw_first in [false, true] {
        let mut children: Vec<_> = (0..10).map(|_| choice()).collect();
        if raw_first {
            children.insert(0, fragment());
        } else {
            children.push(fragment());
        }
        let policy = ScriptPolicy::And(children);
        // The source owns only about 16 KiB of script data, but expansion
        // would repeat it in 1,024 alternatives and exceed the byte budget.
        let expected = CompilationError::PolicyLimit {
            resource: PolicyResource::ExpandedScriptBytes,
            limit: MAX_SCRIPT_BYTES,
        };
        assert_eq!(validate_source(&policy), Err(expected.clone()));
        assert_eq!(lower_raw_policy(&policy), Err(expected));
    }
}

#[test]
fn cumulative_encoding_includes_generated_verification_opcodes() {
    let policy = ScriptPolicy::And(vec![
        raw_bytes(MAX_SCRIPT_BYTES / MAX_ALTERNATIVES),
        ScriptPolicy::Or((0..MAX_ALTERNATIVES).map(|_| ScriptPolicy::And(vec![])).collect()),
        raw_bytes(0),
    ]);
    // The repeated raw payload fits exactly. Each branch also inserts a
    // VERIFY between its two fragments, so the complete output does not.
    validate_source(&policy).unwrap();
    assert_eq!(
        lower_raw_policy(&policy),
        Err(CompilationError::PolicyLimit {
            resource: PolicyResource::EncodedScriptBytes,
            limit: MAX_SCRIPT_BYTES,
        })
    );
}

#[test]
fn source_payloads_are_bounded_even_in_unreachable_branches() {
    let policy = ScriptPolicy::And(vec![
        ScriptPolicy::Or(vec![]),
        raw_bytes(MAX_SCRIPT_BYTES + 1),
    ]);
    assert_eq!(
        validate_source(&policy),
        Err(CompilationError::PolicyLimit {
            resource: PolicyResource::SourceScriptBytes,
            limit: MAX_SCRIPT_BYTES,
        })
    );
}

#[test]
fn large_raw_leaves_fit_the_byte_budget() {
    let scripts = lower_raw_policy(&raw_bytes(65_537)).unwrap();
    assert_eq!(scripts[0].len(), 65_537);
}

#[test]
fn native_runs_are_split_by_raw_fragments() {
    let k1 = Clause::Key(vec![1; 32]);
    let k2 = Clause::Key(vec![2; 32]);
    let k3 = Clause::Key(vec![3; 32]);
    let f = vec![0x75, OP_TRUE];
    let operands = vec![
        Operand::Miniscript(&k1),
        Operand::Miniscript(&k2),
        Operand::Script(&f),
        Operand::Miniscript(&k3),
    ];
    let runs = native_runs(&operands);
    assert_eq!(runs.len(), 2);
    assert_eq!(runs[0].len(), 2);
    assert_eq!(runs[1].len(), 1);
    // Each compiled run stands as one predicate, separated from the raw
    // fragment between them.
    let compiled = vec![vec![0xaa], vec![0xbb, 0xcc]];
    let mut encoded = 0;
    let script = compile_alternative(&operands, &compiled, &mut encoded).unwrap();
    assert_eq!(
        script,
        vec![0xaa, OP_VERIFY, 0x75, OP_TRUE, OP_VERIFY, 0xbb, 0xcc]
    );
    assert_eq!(encoded, 7);
}

#[test]
fn an_oversized_fragment_is_refused_without_output() {
    let big = vec![0x61; MAX_SCRIPT_BYTES + 1];
    let operands = vec![Operand::Script(&big)];
    let mut encoded = 0;
    assert_eq!(
        compile_alternative(&operands, &[], &mut encoded),
        Err(CompilationError::PolicyLimit {
            resource: PolicyResource::EncodedScriptBytes,
            limit: MAX_SCRIPT_BYTES,
        })
    );
}
