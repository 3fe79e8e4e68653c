use bitcoin::Network;
use sapio::builder::{Builder, Compiled};
use sapio::context::Context;
use sapio::error::CompilationError;
use sapio::template::{
    prevout_values, ConstraintFault, FundingConstraints, FundingError, FundingEvidence,
    InputRequirement, PrevoutEvidence, Template,
    TemplateMetadata,
};

fn child() -> Compiled {
    Compiled { required_input_amount: 0, script_pubkey: vec![0x51] }
}

/// One contract input of 1000 and one sponsor of 500; outputs 600 and 800.
fn planned(maximum_fee: u64, minimum_feerate: Option<u64>) -> Template {
    let c = child();
    let ctx = Context::new(Network::Regtest, 1000, vec![], None);
    let b = Builder::new(ctx)
        .add_sequence()
        .add_amount(500)
        .unwrap()
        .add_output(600, &c)
        .unwrap()
        .add_output(800, &c)
        .unwrap()
        .add_fees(100)
        .unwrap();
    let mut t = b.into_template();
    t.funding_constraints = Some(FundingConstraints {
        inputs: vec![
            InputRequirement { name: "contract".to_string(), minimum: 1000 },
            InputRequirement { name: "sponsor".to_string(), minimum: 500 },
        ],
        outputs: vec!["a".to_string(), "b".to_string()],
        maximum_fee,
        minimum_feerate,
    });
    t
}

#[test]
fn a_builder_template_records_its_budget() {
    let t = planned(200, None);
    assert_eq!(t.max, 1500);
    assert_eq!(t.required_input_amount, 1000);
    assert_eq!(t.total_amount(), 1400);
    assert!(t.validate_funding_constraints().is_ok());
}

#[test]
fn funding_reports_known_missing_and_actual_fees() {
    let t = planned(200, Some(100));
    let report = t.check_funding_amounts(&[Some(1000), Some(550)]).unwrap();
    assert_eq!(report.known_input_sats, 1550);
    assert_eq!(report.output_sats, 1400);
    assert_eq!(report.reserved_fee_sats, 100);
    assert!(report.missing_inputs.is_empty());
    assert_eq!(report.actual_fee_sats, Some(150));
    assert_eq!(report.maximum_fee_sats, Some(200));
    assert_eq!(report.minimum_feerate_sat_kwu, Some(100));
    assert!(report.fee_rate_pending);
    let partial = t.check_funding_amounts(&[None, Some(500)]).unwrap();
    assert_eq!(partial.missing_inputs, [0]);
    assert_eq!(partial.actual_fee_sats, None);
}

#[test]
fn every_funding_error_has_its_input() {
    let t = planned(200, None);
    assert!(matches!(t.check_funding_amounts(&[Some(1000)]), Err(FundingError::InputCount)));
    match t.check_funding_amounts(&[Some(999), Some(500)]) {
        Err(FundingError::UnderfundedInput { index, name, available, required }) => {
            assert_eq!((index, name.as_str(), available, required), (0, "contract", 999, 1000));
        }
        _ => panic!("underfunded input expected"),
    }
    assert!(matches!(
        t.check_funding_amounts(&[Some(1000), Some(700)]),
        Err(FundingError::ExcessiveFee { actual: 300, maximum: 200 })
    ));
    assert!(matches!(
        t.check_funding_amounts(&[Some(u64::MAX), Some(u64::MAX)]),
        Err(FundingError::Overflow)
    ));
    let mut unplanned = planned(200, None);
    unplanned.funding_constraints = None;
    assert!(matches!(
        unplanned.check_funding_amounts(&[Some(1000), Some(499)]),
        Err(FundingError::InsufficientFunding { available: 1499, required: 1500 })
    ));
}

#[test]
fn inconsistent_constraints_are_rejected() {
    assert!(matches!(
        planned(99, None).validate_funding_constraints(),
        Err(FundingError::InvalidConstraints(ConstraintFault::FeeCapBelowReserve))
    ));
    let mut names = planned(200, None);
    names.funding_constraints.as_mut().unwrap().outputs[1] = "a".to_string();
    assert!(matches!(
        names.validate_funding_constraints(),
        Err(FundingError::InvalidConstraints(ConstraintFault::InvalidNames))
    ));
    let mut budget = planned(200, None);
    budget.funding_constraints.as_mut().unwrap().inputs[1].minimum = 400;
    assert!(matches!(
        budget.validate_funding_constraints(),
        Err(FundingError::InvalidConstraints(ConstraintFault::BudgetMismatch))
    ));
    let mut count = planned(200, None);
    count.funding_constraints.as_mut().unwrap().outputs.pop();
    assert!(matches!(
        count.validate_funding_constraints(),
        Err(FundingError::InvalidConstraints(ConstraintFault::OutputsMismatch))
    ));
}

#[test]
fn the_unsigned_weight_at_the_minimum_rate_must_fit_the_fee_cap() {
    // Two inputs and two one-byte scripts: 4 + 1 + 82 + 1 + 20 + 4 = 112 bytes,
    // 448 weight units; at 1000 sat/kwu the unsigned transaction needs 448 sat.
    assert!(matches!(
        planned(200, Some(1000)).validate_funding_constraints(),
        Err(FundingError::InvalidConstraints(ConstraintFault::FeeCapBelowRate {
            cap: 200,
            required: 448
        }))
    ));
    assert!(planned(448, Some(1000)).validate_funding_constraints().is_ok());
    assert!(matches!(
        planned(448, Some(1001)).validate_funding_constraints(),
        Err(FundingError::InvalidConstraints(ConstraintFault::FeeCapBelowRate {
            cap: 448,
            required: 449
        }))
    ));
}

#[test]
fn finalized_weight_settles_the_fee_rate() {
    let t = planned(200, Some(100));
    let evidence = |weight| FundingEvidence {
        unsigned_tx: t.transaction(),
        prevout_amounts: vec![Some(1000), Some(550)],
        finalized_weight_wu: weight,
    };
    assert!(t.check_funded_psbt(&evidence(None)).unwrap().fee_rate_pending);
    let settled = t.check_funded_psbt(&evidence(Some(1500))).unwrap();
    assert!(!settled.fee_rate_pending);
    assert_eq!(settled.observed_weight_wu, Some(1500));
    assert!(matches!(
        t.check_funded_psbt(&evidence(Some(1501))),
        Err(FundingError::InsufficientFeeRate { fee: 150, required: 151, weight_wu: 1501 })
    ));
    let mut changed = t.transaction();
    changed.lock_time += 1;
    let mismatch = FundingEvidence {
        unsigned_tx: changed,
        prevout_amounts: vec![Some(1000), Some(550)],
        finalized_weight_wu: None,
    };
    assert!(matches!(t.check_funded_psbt(&mismatch), Err(FundingError::TransactionMismatch)));
}

#[test]
fn inputs_are_explained_by_their_declared_roles() {
    let t = planned(200, None);
    let explained = t.explain_inputs();
    assert_eq!(explained.len(), 2);
    assert_eq!(explained[1].name.as_deref(), Some("sponsor"));
    assert_eq!(explained[1].minimum_sats, Some(500));
    let mut unplanned = planned(200, None);
    unplanned.funding_constraints = None;
    let explained = unplanned.explain_inputs();
    assert_eq!(explained[0].minimum_sats, Some(1000));
    assert_eq!(explained[1].minimum_sats, None);
    assert_eq!(explained[1].sequence, 0x0040_0000);
}

#[test]
fn metadata_fields_are_set_once() {
    let m = TemplateMetadata::new().set_color("red".to_string()).unwrap();
    assert!(!m.skip_serializing());
    match m.set_color("blue".to_string()) {
        Err(CompilationError::OverwriteMetadata(field)) => assert_eq!(field, "color"),
        _ => panic!("overwriting a color must fail"),
    }
    assert!(TemplateMetadata::new().skip_serializing());
}

#[test]
fn prevout_values_prefer_the_witness_record() {
    let evidence = vec![
        PrevoutEvidence { witness_value: Some(700), previous: Some((true, vec![1, 2])), vout: 1 },
        PrevoutEvidence { witness_value: None, previous: Some((true, vec![10, 20, 30])), vout: 2 },
        PrevoutEvidence { witness_value: None, previous: Some((false, vec![10, 20, 30])), vout: 0 },
        PrevoutEvidence { witness_value: None, previous: Some((true, vec![10])), vout: 1 },
        PrevoutEvidence { witness_value: None, previous: None, vout: 0 },
    ];
    assert_eq!(
        prevout_values(&evidence),
        vec![Some(700), Some(30), None, None, None]
    );
}

#[test]
fn a_stale_recorded_hash_or_a_later_commitment_input_is_a_mismatch() {
    let t = planned(200, None);
    let evidence = FundingEvidence {
        unsigned_tx: t.transaction(),
        prevout_amounts: vec![Some(1000), Some(550)],
        finalized_weight_wu: None,
    };
    assert!(t.check_funded_psbt(&evidence).is_ok());
    assert_eq!(t.ctv, t.hash());
    assert_eq!(t.ctv_index, 0);
    let mut stale = planned(200, None);
    stale.lock_time += 1;
    let stale_evidence = FundingEvidence {
        unsigned_tx: stale.transaction(),
        prevout_amounts: vec![Some(1000), Some(550)],
        finalized_weight_wu: None,
    };
    assert!(matches!(
        stale.check_funded_psbt(&stale_evidence),
        Err(FundingError::TransactionMismatch)
    ));
    let mut later = planned(200, None);
    later.ctv_index = 1;
    assert!(matches!(
        later.check_funded_psbt(&evidence),
        Err(FundingError::TransactionMismatch)
    ));
}
