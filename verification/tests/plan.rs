use bitcoin::Network;
use sapio::builder::Compiled;
use sapio::context::Context;
use sapio::ordinals::{Ordinal, OrdinalsInfo};
use sapio::plan::{NameKind, OutputAmount, PlanError, PlanSite, Surplus, TemplatePlan};
use sapio::template::{FundingError, TemplateMetadata};
use sapio::timelocks::{AnyAbsTimeLock, AnyRelTimeLock};

fn child(required: u64) -> Compiled {
    Compiled { required_input_amount: required, script_pubkey: vec![0x51] }
}

fn ctx(funds: u64) -> Context {
    Context::new(Network::Regtest, funds, vec![], None)
}

#[test]
fn exact_outputs_and_a_remainder_spend_the_whole_budget() {
    let c = child(0);
    let mut plan = TemplatePlan::new(ctx(1000));
    plan.output("pay".to_string(), OutputAmount::Exact(600), &c).unwrap();
    plan.output("change".to_string(), OutputAmount::Remainder, &c).unwrap();
    plan.reserve_fees(50).reserve_fees(100).reserve_fees(20);
    let t = plan.finish().unwrap();
    assert_eq!(t.outputs.iter().map(|o| o.amount).collect::<Vec<_>>(), [600, 300]);
    assert_eq!(t.max, 1000);
    assert_eq!(t.required_input_amount, 1000);
    let c = t.funding_constraints.as_ref().unwrap();
    assert_eq!(c.inputs.len(), 1);
    assert_eq!(c.inputs[0].name, "contract");
    assert_eq!(c.outputs, ["pay", "change"]);
    assert_eq!(c.maximum_fee, 100);
    assert!(t.validate_funding_constraints().is_ok());
    let report = t.check_funding_amounts(&[Some(1000)]).unwrap();
    assert_eq!(report.actual_fee_sats, Some(100));
    assert_eq!(report.reserved_fee_sats, 100);
}

#[test]
fn unallocated_funds_are_rejected_by_default() {
    let c = child(0);
    let mut plan = TemplatePlan::new(ctx(1000));
    plan.output("pay".to_string(), OutputAmount::Exact(600), &c).unwrap();
    assert!(matches!(plan.finish(), Err(PlanError::UnallocatedFunds { amount: 400 })));
}

#[test]
fn an_explicit_surplus_policy_turns_leftover_funds_into_fees_under_a_cap() {
    let c = child(0);
    let mut plan = TemplatePlan::new(ctx(1000));
    plan.output("pay".to_string(), OutputAmount::Exact(600), &c).unwrap();
    plan.surplus(Surplus::Fees { maximum: 500 });
    let t = plan.finish().unwrap();
    assert_eq!(t.max, 1000);
    assert_eq!(t.funding_constraints.as_ref().unwrap().maximum_fee, 500);
    let mut capped = TemplatePlan::new(ctx(1000));
    capped.output("pay".to_string(), OutputAmount::Exact(600), &c).unwrap();
    capped.surplus(Surplus::Fees { maximum: 300 });
    assert!(matches!(capped.finish(), Err(PlanError::FeeLimit { fee: 400, maximum: 300 })));
}

#[test]
fn auxiliary_inputs_extend_the_budget_but_not_the_contract_requirement() {
    let c = child(0);
    let mut plan = TemplatePlan::new(ctx(1000));
    let sponsor = plan.input("sponsor".to_string(), 500).unwrap();
    assert_eq!(sponsor.name(), "sponsor");
    assert_eq!(plan.contract_input().name(), "contract");
    plan.output("pay".to_string(), OutputAmount::Exact(1400), &c).unwrap();
    plan.reserve_fees(100);
    let t = plan.finish().unwrap();
    assert_eq!(t.max, 1500);
    assert_eq!(t.required_input_amount, 1000);
    assert_eq!(t.sequences.len(), 2);
    assert!(matches!(
        t.check_funding_amounts(&[Some(1000), Some(400)]),
        Err(FundingError::UnderfundedInput { index: 1, available: 400, required: 500, .. })
    ));
    let report = t.check_funding_amounts(&[Some(1000), None]).unwrap();
    assert_eq!(report.missing_inputs, [1]);
    assert_eq!(report.actual_fee_sats, None);
}

#[test]
fn names_must_be_nonempty_unique_and_single_remainder() {
    let c = child(0);
    let mut plan = TemplatePlan::new(ctx(1000));
    assert!(matches!(plan.input(String::new(), 1), Err(PlanError::EmptyName)));
    assert!(matches!(
        plan.input("contract".to_string(), 1),
        Err(PlanError::DuplicateName { kind: NameKind::Input, .. })
    ));
    plan.output("a".to_string(), OutputAmount::Remainder, &c).unwrap();
    assert!(matches!(
        plan.output("a".to_string(), OutputAmount::Exact(1), &c),
        Err(PlanError::DuplicateName { kind: NameKind::Output, .. })
    ));
    match plan.output("b".to_string(), OutputAmount::Remainder, &c) {
        Err(PlanError::MultipleRemainders { first, second }) => {
            assert_eq!(first, "a");
            assert_eq!(second, "b");
        }
        _ => panic!("a second remainder must be refused"),
    }
}

#[test]
fn budget_errors_are_reported_before_any_child_is_compiled() {
    let c = child(0);
    let empty = TemplatePlan::<Compiled>::new(ctx(1000));
    assert!(matches!(empty.finish(), Err(PlanError::NoOutputs)));
    let mut short = TemplatePlan::new(ctx(1000));
    short.output("a".to_string(), OutputAmount::Exact(900), &c).unwrap();
    short.reserve_fees(200);
    assert!(matches!(
        short.finish(),
        Err(PlanError::InsufficientFunds { available: 1000, outputs: 900, fees: 200 })
    ));
    let mut huge = TemplatePlan::new(ctx(1000));
    huge.input("big".to_string(), u64::MAX).unwrap();
    huge.output("a".to_string(), OutputAmount::Exact(1), &c).unwrap();
    match huge.finish() {
        Err(PlanError::AmountOverflow { at: PlanSite::Input(name) }) => assert_eq!(name, "big"),
        _ => panic!("the overflowing input must be named"),
    }
}

#[test]
fn a_child_that_needs_more_than_its_allocation_is_named() {
    let greedy = child(700);
    let mut plan = TemplatePlan::new(ctx(1000));
    plan.output("pay".to_string(), OutputAmount::Exact(600), &greedy).unwrap();
    plan.output("rest".to_string(), OutputAmount::Remainder, &greedy).unwrap();
    match plan.finish() {
        Err(PlanError::Compilation { at: PlanSite::Output(name), .. }) => assert_eq!(name, "pay"),
        _ => panic!("the underfunded output must be named"),
    }
}

#[test]
fn locks_merge_within_a_domain_and_conflict_across_domains() {
    let c = child(0);
    let mut plan = TemplatePlan::new(ctx(1000));
    let input = plan.contract_input();
    plan.require_older(&input, AnyRelTimeLock::RH(10)).unwrap();
    plan.require_older(&input, AnyRelTimeLock::RH(20)).unwrap();
    plan.require_older(&input, AnyRelTimeLock::RH(15)).unwrap();
    assert!(matches!(
        plan.require_older(&input, AnyRelTimeLock::RT(1)),
        Err(PlanError::ConflictingRelativeLocks { existing: 20, .. })
    ));
    plan.require_after(AnyAbsTimeLock::AH(100)).unwrap();
    assert!(matches!(
        plan.require_after(AnyAbsTimeLock::AT(600_000_000)),
        Err(PlanError::ConflictingAbsoluteLocks { existing: 100, requested: 600_000_000 })
    ));
    plan.output("pay".to_string(), OutputAmount::Remainder, &c).unwrap();
    let t = plan.finish().unwrap();
    assert_eq!(t.sequences, [20]);
    assert_eq!(t.lock_time, 100);
}

#[test]
fn unknown_references_are_refused() {
    let c = child(0);
    let mut other = TemplatePlan::new(ctx(1000));
    let sponsor = other.input("sponsor".to_string(), 1).unwrap();
    let out = other.output("out".to_string(), OutputAmount::Remainder, &c).unwrap();
    let mut plan = TemplatePlan::<Compiled>::new(ctx(1000));
    assert!(matches!(
        plan.require_older(&sponsor, AnyRelTimeLock::RH(1)),
        Err(PlanError::UnknownInput(name)) if name == "sponsor"
    ));
    assert!(matches!(
        plan.require_ordinal(&out, Ordinal(1), 0),
        Err(PlanError::UnknownOutput(name)) if name == "out"
    ));
}

#[test]
fn ordinal_requirements_are_checked_against_resolved_positions() {
    let c = child(0);
    let ranges = || OrdinalsInfo(vec![(Ordinal(5000), Ordinal(6000))]);
    let mut plan = TemplatePlan::new(Context::new(Network::Regtest, 1000, vec![], Some(ranges())));
    let first = plan.output("first".to_string(), OutputAmount::Exact(400), &c).unwrap();
    let second = plan.output("second".to_string(), OutputAmount::Remainder, &c).unwrap();
    plan.require_ordinal(&first, Ordinal(5010), 10).unwrap();
    plan.require_ordinal(&second, Ordinal(5400), 0).unwrap();
    assert!(plan.finish().is_ok());

    let mut wrong = TemplatePlan::new(Context::new(Network::Regtest, 1000, vec![], Some(ranges())));
    let first = wrong.output("first".to_string(), OutputAmount::Remainder, &c).unwrap();
    wrong.require_ordinal(&first, Ordinal(5010), 11).unwrap();
    assert!(matches!(
        wrong.finish(),
        Err(PlanError::OrdinalPlacement { required: 11, actual: Some(10), .. })
    ));

    let mut outside = TemplatePlan::new(Context::new(Network::Regtest, 1000, vec![], Some(ranges())));
    let first = outside.output("first".to_string(), OutputAmount::Exact(400), &c).unwrap();
    outside.output("second".to_string(), OutputAmount::Remainder, &c).unwrap();
    outside.require_ordinal(&first, Ordinal(5500), 0).unwrap();
    assert!(matches!(outside.finish(), Err(PlanError::OrdinalPlacement { actual: None, .. })));

    let mut unknown = TemplatePlan::new(ctx(1000));
    let first = unknown.output("first".to_string(), OutputAmount::Remainder, &c).unwrap();
    unknown.require_ordinal(&first, Ordinal(1), 0).unwrap();
    assert!(matches!(unknown.finish(), Err(PlanError::UnknownOrdinal { .. })));

    let mut offset = TemplatePlan::new(ctx(1000));
    let first = offset.output("first".to_string(), OutputAmount::Exact(10), &c).unwrap();
    offset.output("rest".to_string(), OutputAmount::Remainder, &c).unwrap();
    offset.require_ordinal(&first, Ordinal(1), 10).unwrap();
    assert!(matches!(
        offset.finish(),
        Err(PlanError::InvalidOrdinalOffset { offset: 10, amount: 10, .. })
    ));
}

#[test]
fn ranges_must_describe_the_contract_budget() {
    let c = child(0);
    let mut plan = TemplatePlan::new(Context::new(
        Network::Regtest,
        1000,
        vec![],
        Some(OrdinalsInfo(vec![(Ordinal(0), Ordinal(999))])),
    ));
    plan.output("all".to_string(), OutputAmount::Remainder, &c).unwrap();
    assert!(matches!(
        plan.finish(),
        Err(PlanError::OrdinalFunding { available: 1000, in_ranges: 999 })
    ));
}

#[test]
fn a_feerate_the_fee_cap_cannot_pay_is_refused_when_finishing() {
    let c = child(0);
    let mut plan = TemplatePlan::new(ctx(1000));
    plan.output("pay".to_string(), OutputAmount::Remainder, &c).unwrap();
    plan.reserve_fees(1);
    plan.require_feerate(250);
    assert!(matches!(plan.finish(), Err(PlanError::Funding(FundingError::InvalidConstraints(_)))));
}

#[test]
fn metadata_is_carried_to_the_template() {
    let c = child(0);
    let mut plan = TemplatePlan::new(ctx(10));
    plan.metadata(TemplateMetadata::new().set_label("spend".to_string()).unwrap());
    plan.output("pay".to_string(), OutputAmount::Remainder, &c).unwrap();
    let t = plan.finish().unwrap();
    assert_eq!(t.metadata.label.as_deref(), Some("spend"));
}
