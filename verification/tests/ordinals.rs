use bitcoin::Network;
use sapio::builder::Compiled;
use sapio::context::{allocate_ordinals, Context, PathFragment};
use sapio::error::{CompilationError, OrdinalsFault};
use sapio::ordinals::{Ordinal, OrdinalSpec, OrdinalsInfo, PlanStep};

fn info(ranges: &[(u64, u64)]) -> OrdinalsInfo {
    OrdinalsInfo(ranges.iter().map(|(a, b)| (Ordinal(*a), Ordinal(*b))).collect())
}

fn spec(ordinals: &[u64], payouts: &[u64], payins: &[u64], fees: u64) -> OrdinalSpec {
    OrdinalSpec {
        ordinals: ordinals.iter().copied().map(Ordinal).collect(),
        payouts: payouts.to_vec(),
        payins: payins.to_vec(),
        fees,
    }
}

fn context(ranges: OrdinalsInfo) -> Context {
    Context::new(
        Network::Regtest,
        ranges.total().unwrap(),
        vec![PathFragment::Named("plan".to_string())],
        Some(ranges),
    )
}

fn destination() -> Compiled {
    Compiled {
        required_input_amount: 0,
        script_pubkey: vec![
            0x00, 0x14, 0xe6, 0xc6, 0x30, 0x21, 0x7e, 0xcc, 0x7b, 0xe6, 0xf7, 0x62, 0xd9, 0xcc,
            0x5f, 0x6f, 0x50, 0x94, 0x14, 0xfe, 0x1e, 0xf2,
        ],
    }
}

#[test]
fn ordinal_outputs_follow_input_order_and_preserve_complete_accounting() {
    let ranges = info(&[(1000, 2000), (0, 1000)]);
    let request = spec(&[10, 1010], &[7, 7, 300], &[], 10);
    let plan = ranges.output_plan(&request).unwrap();
    let wanted: Vec<_> = plan
        .0
        .iter()
        .filter_map(|step| match step {
            PlanStep::Ordinal(ordinal) => Some(*ordinal),
            _ => None,
        })
        .collect();
    assert_eq!(wanted, [Ordinal(1010), Ordinal(10)]);
    let target = destination();
    let mut payouts: Vec<(u64, Vec<&Compiled>)> = Vec::new();
    for amount in &request.payouts {
        match payouts.iter_mut().find(|(a, _)| a == amount) {
            Some((_, targets)) => targets.push(&target),
            None => payouts.push((*amount, vec![&target])),
        }
    }
    let ordinals = request.ordinals.iter().map(|ordinal| (*ordinal, &target)).collect();
    let template = plan
        .build_plan(context(info(&[(1000, 2000), (0, 1000)])), payouts, ordinals, &target)
        .unwrap()
        .into_template();
    let input_sats: Vec<u64> = ranges.0.iter().flat_map(|(a, b)| a.0..b.0).collect();
    let mut offset = 0usize;
    let mut observed = Vec::new();
    for output in &template.outputs {
        if output.amount == 501 {
            observed.push(input_sats[offset]);
        }
        offset += output.amount as usize;
    }
    assert_eq!(observed, [1010, 10]);
    assert_eq!(offset, 1990);
    assert_eq!(template.max, 2000);
}

#[test]
fn auxiliary_inputs_pay_the_seller_change_and_fee_after_known_sats() {
    let ranges = info(&[(1000, 2000)]);
    let request = spec(&[1010], &[800], &[1000], 100);
    let plan = ranges.output_plan(&request).unwrap();
    assert_eq!(
        plan.0,
        [
            PlanStep::Change(10),
            PlanStep::Ordinal(Ordinal(1010)),
            PlanStep::Change(489),
            PlanStep::PayIn(1000),
            PlanStep::Payout(800),
            PlanStep::Change(100),
            PlanStep::Fee(100),
        ]
    );
    let target = destination();
    let payouts = vec![(800u64, vec![&target])];
    let ordinals = vec![(Ordinal(1010), &target)];
    let template = plan
        .build_plan(context(ranges), payouts, ordinals, &target)
        .unwrap()
        .into_template();
    assert_eq!(template.sequences.len(), 2);
    assert_eq!(
        template.outputs.iter().map(|out| out.amount).collect::<Vec<_>>(),
        [10, 501, 489, 800, 100]
    );
    assert_eq!(template.max, 2000);
}

#[test]
fn gaps_smaller_than_any_payout_become_change_without_underflow() {
    let plan = info(&[(0, 1000)]).output_plan(&spec(&[1], &[200], &[], 10)).unwrap();
    assert_eq!(plan.0.first(), Some(&PlanStep::Change(1)));
    let near_max = info(&[(0, 1000), (u64::MAX - 1000, u64::MAX)]);
    near_max.output_plan(&spec(&[u64::MAX - 999], &[], &[], 10)).unwrap();
}

#[test]
fn malformed_missing_overlapping_and_underfunded_requests_are_errors() {
    for ranges in [info(&[(10, 1)]), info(&[(1, 1)]), info(&[(0, 10), (9, 20)])] {
        assert!(ranges.output_plan(&spec(&[], &[], &[], 0)).is_err());
    }
    let ranges = info(&[(0, 1000)]);
    for request in [
        spec(&[1000], &[], &[], 0),
        spec(&[999], &[], &[], 0),
        spec(&[0, 1], &[], &[], 0),
        spec(&[0], &[500], &[], 0),
        spec(&[], &[u64::MAX, 1], &[], 0),
        spec(&[], &[], &[u64::MAX, 1], 0),
        spec(&[], &[0], &[], 0),
        spec(&[], &[], &[0], 0),
        spec(&[499], &[], &[], 1),
    ] {
        assert!(ranges.output_plan(&request).is_err());
    }
}

#[test]
fn executing_a_plan_rechecks_actual_ordinal_positions_and_destinations() {
    let ranges = info(&[(1000, 2000)]);
    let target = destination();
    let request = spec(&[1010], &[], &[], 10);
    let ordinals = || vec![(Ordinal(1010), &target)];
    assert!(ranges
        .output_plan(&request)
        .unwrap()
        .build_plan(context(info(&[(0, 1000)])), Vec::new(), ordinals(), &target)
        .is_err());
    assert!(ranges
        .output_plan(&request)
        .unwrap()
        .build_plan(context(info(&[(1000, 2000)])), Vec::new(), Vec::new(), &target)
        .is_err());
}

#[test]
fn executing_a_plan_rejects_malformed_actual_ranges_and_amounts() {
    let ranges = info(&[(0, 1000)]);
    let request = spec(&[0], &[], &[], 0);
    let target = destination();
    for actual in [info(&[(0, 500), (0, 500)]), info(&[(0, 999)])] {
        let ctx = Context::new(
            Network::Regtest,
            1000,
            vec![PathFragment::Named("plan".to_string())],
            Some(actual),
        );
        assert!(ranges
            .output_plan(&request)
            .unwrap()
            .build_plan(ctx, Vec::new(), vec![(Ordinal(0), &target)], &target)
            .is_err());
    }
}

#[test]
fn mismatched_actual_ranges_are_named() {
    let ranges = info(&[(0, 1000)]);
    let target = destination();
    let ctx = Context::new(Network::Regtest, 1000, vec![], Some(info(&[(0, 999)])));
    let result = ranges
        .output_plan(&spec(&[0], &[], &[], 0))
        .unwrap()
        .build_plan(ctx, Vec::new(), vec![(Ordinal(0), &target)], &target);
    assert!(matches!(
        result,
        Err(CompilationError::OrdinalsError(OrdinalsFault::FundsMismatch))
    ));
}

#[test]
fn a_plan_without_a_fee_step_is_refused() {
    let target = destination();
    let plan = sapio::ordinals::Plan(vec![PlanStep::Change(10)]);
    let ctx = Context::new(Network::Regtest, 10, vec![], None);
    assert!(matches!(
        plan.build_plan(ctx, Vec::new(), Vec::new(), &target),
        Err(CompilationError::OrdinalsError(OrdinalsFault::MissingFeeStep))
    ));
}

#[test]
fn a_payout_without_a_destination_is_refused() {
    let target = destination();
    let plan = sapio::ordinals::Plan(vec![PlanStep::Payout(10), PlanStep::Fee(0)]);
    let ctx = Context::new(Network::Regtest, 10, vec![], None);
    assert!(matches!(
        plan.build_plan(ctx, Vec::new(), Vec::new(), &target),
        Err(CompilationError::OrdinalsError(OrdinalsFault::MissingPayoutDestination))
    ));
}

#[test]
fn leftover_funds_do_not_exhaust_a_plan() {
    let target = destination();
    let plan = sapio::ordinals::Plan(vec![PlanStep::Change(5), PlanStep::Fee(0)]);
    let ctx = Context::new(Network::Regtest, 10, vec![], None);
    assert!(matches!(
        plan.build_plan(ctx, Vec::new(), Vec::new(), &target),
        Err(CompilationError::OrdinalsError(OrdinalsFault::PlanNotExhausted))
    ));
}

#[test]
fn a_plan_allocates_every_sat_to_its_outputs_and_fee() {
    let target = destination();
    let plan = sapio::ordinals::Plan(vec![
        PlanStep::Change(6),
        PlanStep::Payout(3),
        PlanStep::Fee(1),
    ]);
    let ctx = Context::new(Network::Regtest, 10, vec![], None);
    let template = plan
        .build_plan(ctx, vec![(3, vec![&target])], Vec::new(), &target)
        .unwrap()
        .into_template();
    assert_eq!(template.outputs.iter().map(|o| o.amount).collect::<Vec<_>>(), [6, 3]);
    assert_eq!(template.max, 10);
}

#[test]
fn allocation_splits_ranges_without_losing_sats() {
    let (taken, rest) = allocate_ordinals(1500, &info(&[(0, 1000), (5000, 6000)])).unwrap();
    assert_eq!(taken.0, vec![(Ordinal(0), Ordinal(1000)), (Ordinal(5000), Ordinal(5500))]);
    assert_eq!(rest.0, vec![(Ordinal(5500), Ordinal(6000))]);
    assert_eq!(taken.total().unwrap() + rest.total().unwrap(), 2000);
}

#[test]
fn ordinal_totals_reject_invalid_ranges() {
    assert_eq!(info(&[(0, 10), (20, 25)]).total().unwrap(), 15);
    assert!(matches!(
        info(&[(0, 10), (5, 25)]).total(),
        Err(CompilationError::OrdinalsError(OrdinalsFault::InvalidRanges))
    ));
}

#[test]
fn planned_outputs_account_for_every_known_and_auxiliary_sat() {
    let ranges = info(&[(0, 2000)]);
    let plan = ranges.output_plan(&spec(&[700], &[300, 50], &[100], 20)).unwrap();
    let outputs: u64 = plan
        .0
        .iter()
        .map(|step| match step {
            PlanStep::Change(a) | PlanStep::Payout(a) | PlanStep::Fee(a) => *a,
            PlanStep::Ordinal(_) => 501,
            PlanStep::PayIn(_) => 0,
        })
        .sum();
    assert_eq!(outputs, 2100);
    assert!(matches!(plan.0.last(), Some(PlanStep::Fee(20))));
}

#[test]
fn planned_steps_keep_their_order() {
    let ranges = info(&[(0, 2000)]);
    let plan = ranges.output_plan(&spec(&[700, 100], &[300, 50, 300], &[100, 40], 20)).unwrap();
    let steps = &plan.0;
    let fees: Vec<usize> =
        (0..steps.len()).filter(|i| matches!(steps[*i], PlanStep::Fee(_))).collect();
    assert_eq!(fees, vec![steps.len() - 1]);
    let last_ordinal = (0..steps.len()).filter(|i| matches!(steps[*i], PlanStep::Ordinal(_))).max().unwrap();
    let first_payin = (0..steps.len()).filter(|i| matches!(steps[*i], PlanStep::PayIn(_))).min().unwrap();
    assert!(last_ordinal < first_payin);
    let payins: Vec<u64> = steps
        .iter()
        .filter_map(|s| match s {
            PlanStep::PayIn(a) => Some(*a),
            _ => None,
        })
        .collect();
    assert_eq!(payins, vec![100, 40]);
    let mut payouts: Vec<u64> = steps
        .iter()
        .filter_map(|s| match s {
            PlanStep::Payout(a) => Some(*a),
            _ => None,
        })
        .collect();
    payouts.sort();
    assert_eq!(payouts, vec![50, 300, 300]);
}

#[test]
fn a_payout_takes_the_last_destination_of_the_first_entry_for_its_amount() {
    let change = destination();
    let first = Compiled { required_input_amount: 0, script_pubkey: vec![0x51] };
    let second = Compiled { required_input_amount: 0, script_pubkey: vec![0x52] };
    let plan = sapio::ordinals::Plan(vec![
        PlanStep::Payout(3),
        PlanStep::Payout(3),
        PlanStep::PayIn(4),
        PlanStep::Change(7),
        PlanStep::Fee(1),
    ]);
    let ctx = Context::new(Network::Regtest, 10, vec![], None);
    let template = plan
        .build_plan(ctx, vec![(3, vec![&first, &second])], Vec::new(), &change)
        .unwrap()
        .into_template();
    let scripts: Vec<Vec<u8>> =
        template.outputs.iter().map(|o| o.contract.script_pubkey.clone()).collect();
    assert_eq!(scripts, vec![vec![0x52], vec![0x51], change.script_pubkey.clone()]);
    assert_eq!(template.outputs.iter().map(|o| o.amount).collect::<Vec<_>>(), [3, 3, 7]);
    assert_eq!(template.max, 14);
}
