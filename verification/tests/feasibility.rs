use bitcoin::hashes::{hash160, ripemd160, sha256, sha256d};
use sapio::feasibility::{
    get_ctv_hash, miniscript_policy_possible, Transaction, TxIn, TxOut, LOCK_TIME_THRESHOLD,
    SEQUENCE_DISABLE_FLAG, SEQUENCE_LOCK_MASK, SEQUENCE_TYPE_FLAG,
};
use sapio::policy::{Clause, Inscription};

fn sha(b: &[u8]) -> Vec<u8> {
    let h = <sha256::Hash as bitcoin::hashes::Hash>::hash(b);
    <sha256::Hash as bitcoin::hashes::Hash>::to_byte_array(h).to_vec()
}

fn sha_d(b: &[u8]) -> Vec<u8> {
    let h = <sha256d::Hash as bitcoin::hashes::Hash>::hash(b);
    <sha256d::Hash as bitcoin::hashes::Hash>::to_byte_array(h).to_vec()
}

fn ripemd(b: &[u8]) -> Vec<u8> {
    let h = <ripemd160::Hash as bitcoin::hashes::Hash>::hash(b);
    <ripemd160::Hash as bitcoin::hashes::Hash>::to_byte_array(h).to_vec()
}

fn hash160_of(b: &[u8]) -> Vec<u8> {
    let h = <hash160::Hash as bitcoin::hashes::Hash>::hash(b);
    <hash160::Hash as bitcoin::hashes::Hash>::to_byte_array(h).to_vec()
}

fn transaction(version: i32, lock_time: u32, sequence: u32) -> Transaction {
    Transaction {
        version,
        lock_time,
        input: vec![TxIn { sequence, script_sig: vec![] }],
        output: vec![TxOut { value: 1_000, script_pubkey: vec![] }],
    }
}

fn key_policy() -> Clause {
    Clause::Key(vec![
        0x1b, 0x84, 0xc5, 0x56, 0x7b, 0x12, 0x64, 0x40, 0x99, 0x5d, 0x3e, 0xd5, 0xaa, 0xba, 0x05,
        0x65, 0xd7, 0x1e, 0x18, 0x34, 0x60, 0x48, 0x19, 0xff, 0x9c, 0x17, 0xf5, 0xe9, 0xd5, 0xdd,
        0x07, 0x8f,
    ])
}

#[test]
fn credentials_are_potentially_available() {
    let tx = transaction(2, 0, 0);
    for policy in [
        Clause::Trivial,
        key_policy(),
        Clause::Sha256(sha(b"unknown preimage")),
        Clause::Hash256(sha_d(b"unknown preimage")),
        Clause::Ripemd160(ripemd(b"unknown preimage")),
        Clause::Hash160(hash160_of(b"unknown preimage")),
    ] {
        assert!(miniscript_policy_possible(&policy, &tx, 0));
    }
    assert!(!miniscript_policy_possible(&Clause::Unsatisfiable, &tx, 0));
}

#[test]
fn absolute_locktime_requires_same_domain_and_nonfinal_input() {
    for (required, lock_time, sequence, expected) in [
        (100, 99, 0, false),
        (100, 100, 0, true),
        (100, 101, 0, true),
        (100, 100, u32::MAX, false),
        (100, 100, u32::MAX - 1, true),
        (LOCK_TIME_THRESHOLD - 1, LOCK_TIME_THRESHOLD - 1, 0, true),
        (LOCK_TIME_THRESHOLD - 1, LOCK_TIME_THRESHOLD, 0, false),
        (LOCK_TIME_THRESHOLD, LOCK_TIME_THRESHOLD - 1, 0, false),
        (LOCK_TIME_THRESHOLD, LOCK_TIME_THRESHOLD, 0, true),
        (LOCK_TIME_THRESHOLD + 1, LOCK_TIME_THRESHOLD, 0, false),
        (u32::MAX, u32::MAX, 0, true),
    ] {
        assert_eq!(
            miniscript_policy_possible(
                &Clause::After(required),
                &transaction(1, lock_time, sequence),
                0,
            ),
            expected,
            "after({required}), lock_time={lock_time}, sequence={sequence}"
        );
    }
}

#[test]
fn relative_locktime_requires_enabled_version_and_sequence() {
    for version in [i32::MIN, -1, 0, 1, 2, 3, i32::MAX] {
        assert_eq!(
            miniscript_policy_possible(&Clause::Older(1), &transaction(version, 0, 1), 0),
            version >= 2,
            "version={version}"
        );
        for sequence in [SEQUENCE_DISABLE_FLAG | 1, u32::MAX] {
            assert!(!miniscript_policy_possible(
                &Clause::Older(1),
                &transaction(version, 0, sequence),
                0,
            ));
        }
    }
}

#[test]
fn disabled_csv_operand_is_a_nop() {
    for required in [SEQUENCE_DISABLE_FLAG, u32::MAX] {
        for version in [-1, 1, 2] {
            for sequence in [0, SEQUENCE_TYPE_FLAG, SEQUENCE_DISABLE_FLAG, u32::MAX] {
                assert!(miniscript_policy_possible(
                    &Clause::Older(required),
                    &transaction(version, 0, sequence),
                    0,
                ));
            }
        }
    }
}

#[test]
fn relative_locktime_compares_only_consensus_bits_in_the_same_domain() {
    const RESERVED: u32 = 0x7fff_ffff & !SEQUENCE_LOCK_MASK;
    for (required, sequence, expected) in [
        (10, 9, false),
        (10, 10, true),
        (10, 11, true),
        (0xffff, 0xffff, true),
        (10, SEQUENCE_TYPE_FLAG | 10, false),
        (SEQUENCE_TYPE_FLAG | 10, 10, false),
        (SEQUENCE_TYPE_FLAG | 10, SEQUENCE_TYPE_FLAG | 9, false),
        (SEQUENCE_TYPE_FLAG | 10, SEQUENCE_TYPE_FLAG | 10, true),
        (SEQUENCE_TYPE_FLAG | 10, SEQUENCE_TYPE_FLAG | 11, true),
        (RESERVED | 10, 10, true),
        (10, RESERVED | 10, true),
        (RESERVED | 10, RESERVED | 9, false),
        (RESERVED | SEQUENCE_TYPE_FLAG | 10, SEQUENCE_TYPE_FLAG | 10, true),
    ] {
        assert_eq!(
            miniscript_policy_possible(&Clause::Older(required), &transaction(2, 0, sequence), 0),
            expected,
            "older({required}), sequence={sequence}"
        );
    }
}

#[test]
fn template_commitment_and_timelocks_use_the_selected_input() {
    let mut tx = transaction(2, 100, u32::MAX);
    let mut second_input = tx.input[0].clone();
    second_input.sequence = 10;
    tx.input.push(second_input);
    let committed_to_zero = Clause::TxTemplate(get_ctv_hash(&tx, 0));
    let committed_to_one = Clause::TxTemplate(get_ctv_hash(&tx, 1));
    assert!(miniscript_policy_possible(&committed_to_zero, &tx, 0));
    assert!(!miniscript_policy_possible(&committed_to_zero, &tx, 1));
    assert!(miniscript_policy_possible(&committed_to_one, &tx, 1));
    for policy in [Clause::After(100), Clause::Older(10)] {
        assert!(!miniscript_policy_possible(&policy, &tx, 0));
        assert!(miniscript_policy_possible(&policy, &tx, 1));
    }
    tx.output[0].value += 1;
    assert!(!miniscript_policy_possible(&committed_to_zero, &tx, 0));
    assert!(!miniscript_policy_possible(&committed_to_one, &tx, 1));
}

#[test]
fn a_spending_input_must_exist() {
    let mut tx = transaction(2, 100, 10);
    assert!(!miniscript_policy_possible(&Clause::Trivial, &tx, 1));
    assert!(!miniscript_policy_possible(&Clause::Trivial, &tx, u32::MAX));
    tx.input.clear();
    assert!(!miniscript_policy_possible(&Clause::Trivial, &tx, 0));
}

#[test]
fn alternatives_thresholds_and_inscriptions_preserve_possible_authorizations() {
    let tx = transaction(2, 100, 10);
    let impossible = || Clause::Older(11);
    let possible = key_policy;
    let alternatives = || Clause::Or(vec![(1, impossible()), (0, possible())]);
    assert!(miniscript_policy_possible(&alternatives(), &tx, 0));
    assert!(!miniscript_policy_possible(
        &Clause::And(vec![impossible(), possible()]),
        &tx,
        0,
    ));
    let children = || vec![impossible(), possible(), Clause::After(100)];
    assert!(miniscript_policy_possible(&Clause::Threshold(2, children()), &tx, 0));
    assert!(!miniscript_policy_possible(&Clause::Threshold(3, children()), &tx, 0));
    for (inner, expected) in [(alternatives(), true), (impossible(), false)] {
        let inscription = Clause::Inscribe(
            Box::new(Inscription::new(
                Some(b"application/octet-stream".to_vec()),
                Some(vec![0, 1, 255]),
            )),
            Box::new(inner),
        );
        assert_eq!(miniscript_policy_possible(&inscription, &tx, 0), expected);
    }
}

#[test]
fn the_template_hash_follows_the_bip119_layout() {
    // BIP-119 reference: a version 2 transaction with one input of sequence
    // 0xffffffff, no lock time and one empty output of zero value.
    let tx = Transaction {
        version: 2,
        lock_time: 0,
        input: vec![TxIn { sequence: u32::MAX, script_sig: vec![] }],
        output: vec![TxOut { value: 0, script_pubkey: vec![] }],
    };
    let mut preimage = Vec::new();
    preimage.extend_from_slice(&2i32.to_le_bytes());
    preimage.extend_from_slice(&0u32.to_le_bytes());
    preimage.extend_from_slice(&1u32.to_le_bytes());
    preimage.extend_from_slice(&sha(&u32::MAX.to_le_bytes()));
    preimage.extend_from_slice(&1u32.to_le_bytes());
    let mut output = Vec::new();
    output.extend_from_slice(&0u64.to_le_bytes());
    output.push(0);
    preimage.extend_from_slice(&sha(&output));
    preimage.extend_from_slice(&0u32.to_le_bytes());
    assert_eq!(get_ctv_hash(&tx, 0), sha(&preimage));
    let mut signed = tx.clone();
    signed.input[0].script_sig = vec![0x51];
    assert_ne!(get_ctv_hash(&signed, 0), get_ctv_hash(&tx, 0));
}
