use bitcoin::Network;
use sapio::builder::{Builder, Compiled};
use sapio::context::{Context, PathFragment};
use sapio::error::CompilationError;
use sapio::timelocks::{AnyAbsTimeLock, AnyRelTimeLock};

fn ctx(funds: u64) -> Context {
    Context::new(Network::Regtest, funds, vec![PathFragment::Named("b".to_string())], None)
}

fn child(required: u64, script: Vec<u8>) -> Compiled {
    Compiled { required_input_amount: required, script_pubkey: script }
}

#[test]
fn outputs_and_fees_are_debited_from_the_funds() {
    let c = child(0, vec![0x51]);
    let b = Builder::new(ctx(1000)).add_output(400, &c).unwrap();
    assert_eq!(b.ctx().funds(), 600);
    assert!(matches!(b.add_output(601, &c), Err(CompilationError::OutOfFunds)));
    let b = Builder::new(ctx(1000)).add_output(400, &c).unwrap().add_fees(600).unwrap();
    let t = b.into_template();
    assert_eq!(t.max, 1000);
    assert_eq!(t.version, 2);
}

#[test]
fn children_must_accept_their_allocation() {
    let c = child(500, vec![0x51]);
    assert!(matches!(
        Builder::new(ctx(1000)).add_output(400, &c),
        Err(CompilationError::UnderfundedOutput { available: 400, required: 500 })
    ));
}

#[test]
fn each_output_compiles_at_its_own_branch() {
    let c = child(0, vec![0x51]);
    let mut context = ctx(1000);
    context.derive_num(0u64).unwrap();
    let b = Builder::new(context);
    assert!(matches!(b.add_output(1, &c), Err(CompilationError::ContexPathAlreadyDerived)));
}

#[test]
fn external_funds_need_an_input() {
    assert!(matches!(
        Builder::new(ctx(10)).add_amount(5),
        Err(CompilationError::ExternalFundingWithoutInput)
    ));
    let b = Builder::new(ctx(10)).add_sequence().add_amount(5).unwrap();
    assert_eq!(b.ctx().funds(), 15);
    let t = b.into_template();
    assert_eq!(t.required_input_amount, 0);
}

#[test]
fn sequences_merge_by_domain_and_index_from_the_back() {
    let b = Builder::new(ctx(10))
        .add_sequence()
        .set_sequence(-1, AnyRelTimeLock::RH(5))
        .unwrap()
        .set_sequence(1, AnyRelTimeLock::RH(7))
        .unwrap()
        .set_sequence(0, AnyRelTimeLock::RT(3))
        .unwrap();
    assert!(matches!(
        Builder::new(ctx(10)).set_sequence(1, AnyRelTimeLock::RH(1)),
        Err(CompilationError::NoSuchSequence)
    ));
    assert!(matches!(
        Builder::new(ctx(10))
            .set_sequence(0, AnyRelTimeLock::RH(1))
            .unwrap()
            .set_sequence(-1, AnyRelTimeLock::RT(1)),
        Err(CompilationError::IncompatibleSequence)
    ));
    let b = b.set_lock_time(AnyAbsTimeLock::AH(10)).unwrap().set_lock_time(AnyAbsTimeLock::AH(5)).unwrap();
    let t = b.into_template();
    assert_eq!(t.sequences, [0x0040_0003, 7]);
    assert_eq!(t.lock_time, 10);
}

#[test]
fn unsigned_size_counts_every_script_byte_and_prefix() {
    let short = child(0, vec![0x51]);
    let long = child(0, vec![0x6a; 300]);
    let b = Builder::new(ctx(1000)).add_output(1, &short).unwrap().add_output(1, &long).unwrap();
    // 4 + 1 + 41 + 1 + (8 + 1 + 1) + (8 + 3 + 300) + 4
    assert_eq!(b.unsigned_tx_size(), 372);
    assert_eq!(b.unsigned_tx_size_with_output(&vec![0u8; 252]), 372 + 8 + 1 + 252);
}

#[test]
fn minimum_feerates_keep_the_strongest() {
    let b = Builder::new(ctx(10)).set_min_feerate(5).set_min_feerate(3);
    assert_eq!(b.into_template().min_feerate_sats_vbyte, Some(5));
}

#[test]
fn timelocks_merge_to_the_stronger_within_a_domain() {
    assert_eq!(AnyRelTimeLock::RH(3).merge(&AnyRelTimeLock::RH(9)), Some(AnyRelTimeLock::RH(9)));
    assert_eq!(AnyRelTimeLock::RH(3).merge(&AnyRelTimeLock::RT(9)), None);
    assert_eq!(AnyRelTimeLock::RT(2).get(), 0x0040_0002);
    assert_eq!(AnyAbsTimeLock::AT(600_000_000).merge(&AnyAbsTimeLock::AT(500_000_001)), Some(AnyAbsTimeLock::AT(600_000_000)));
    assert_eq!(AnyAbsTimeLock::AH(1).merge(&AnyAbsTimeLock::AT(500_000_001)), None);
}

#[test]
fn contexts_track_funds_and_derivations() {
    let mut c = ctx(100);
    let child = c.derive_num(3u64).unwrap();
    assert_eq!(child.path().len(), 2);
    assert!(matches!(c.derive_num(3u64), Err(CompilationError::ContexPathAlreadyDerived)));
    assert!(matches!(ctx(100).with_amount(101), Err(CompilationError::OutOfFunds)));
    assert_eq!(ctx(100).with_amount(40).unwrap().funds(), 40);
    assert_eq!(ctx(100).spend_amount(40).unwrap().funds(), 60);
    assert_eq!(ctx(100).add_amount(40).unwrap().funds(), 140);
    assert!(matches!(ctx(u64::MAX).add_amount(1), Err(CompilationError::AvailableFundsOverflow)));
}

#[test]
fn the_builder_transaction_is_the_template_transaction() {
    let c = child(0, vec![0x51, 0x52]);
    // A new builder spends one input; this adds a second.
    let b = Builder::new(ctx(1000))
        .add_sequence()
        .set_sequence(-1, AnyRelTimeLock::RH(6))
        .unwrap()
        .set_lock_time(AnyAbsTimeLock::AH(700_000))
        .unwrap()
        .add_output(300, &c)
        .unwrap();
    let tx = b.get_tx();
    assert_eq!(tx.version, 2);
    assert_eq!(tx.lock_time, 700_000);
    assert_eq!(tx.input.len(), 2);
    // An input without a lock gets the default sequence.
    assert_eq!(tx.input[0].sequence, 0x0040_0000);
    assert_eq!(tx.input[1].sequence, 6);
    assert_eq!(tx.output.len(), 1);
    assert_eq!(tx.output[0].value, 300);
    assert_eq!(tx.output[0].script_pubkey, vec![0x51, 0x52]);
    let from_template = b.into_template().transaction();
    assert_eq!(from_template.input.len(), 2);
    assert_eq!(from_template.input[1].sequence, tx.input[1].sequence);
    assert_eq!(from_template.lock_time, tx.lock_time);
    assert_eq!(from_template.output[0].script_pubkey, tx.output[0].script_pubkey);
}
