//! Necessary transaction-field checks for the policy language, and the
//! template hash a covenant commits to.
use vstd::prelude::*;
use crate::policy::{Clause, ScriptPolicy};
use crate::preflight::lemma_policy_child_decreases;

verus! {

/// Absolute lock times below this are block heights, at or above it times.
pub const LOCK_TIME_THRESHOLD: u32 = 500_000_000;

/// A sequence with this bit set has no relative lock.
pub const SEQUENCE_DISABLE_FLAG: u32 = 0x8000_0000;

/// A relative lock with this bit set counts time, otherwise blocks.
pub const SEQUENCE_TYPE_FLAG: u32 = 0x0040_0000;

/// The bits of a sequence that a relative lock compares.
pub const SEQUENCE_LOCK_MASK: u32 = 0x0040_ffff;

/// A transaction input as the checks read it.
#[derive(Debug, Clone)]
pub struct TxIn {
    /// The input's sequence.
    pub sequence: u32,
    /// The input's signature script.
    pub script_sig: Vec<u8>,
}

/// A transaction output.
#[derive(Debug, Clone)]
pub struct TxOut {
    /// Amount in satoshis.
    pub value: u64,
    /// The output's script.
    pub script_pubkey: Vec<u8>,
}

/// The fields of a transaction that policies and template hashes read.
#[derive(Debug, Clone)]
pub struct Transaction {
    /// Transaction version.
    pub version: i32,
    /// Absolute lock time.
    pub lock_time: u32,
    /// Inputs, in order.
    pub input: Vec<TxIn>,
    /// Outputs, in order.
    pub output: Vec<TxOut>,
}

/// A transaction as values: inputs as sequence and signature script,
/// outputs as value and script.
pub struct TxView {
    pub version: i32,
    pub lock_time: u32,
    pub inputs: Seq<(u32, Seq<u8>)>,
    pub outputs: Seq<(u64, Seq<u8>)>,
}

impl View for Transaction {
    type V = TxView;

    open spec fn view(&self) -> TxView {
        TxView {
            version: self.version,
            lock_time: self.lock_time,
            inputs: self.input@.map_values(|x: TxIn| (x.sequence, x.script_sig@)),
            outputs: self.output@.map_values(|x: TxOut| (x.value, x.script_pubkey@)),
        }
    }
}

/// Whether a policy has an authorization compatible with the fixed
/// transaction fields at a spending input, assuming keys and preimages are
/// available.
pub open spec fn possible(c: Clause, version: i32, lock_time: u32, sequence: u32, ctv: Seq<u8>) -> bool
    decreases c,
{
    match c {
        Clause::Unsatisfiable => false,
        Clause::Trivial => true,
        Clause::Key(_) => true,
        Clause::Sha256(_) => true,
        Clause::Hash256(_) => true,
        Clause::Ripemd160(_) => true,
        Clause::Hash160(_) => true,
        Clause::After(required) => sequence != u32::MAX && (lock_time < LOCK_TIME_THRESHOLD) == (
        required < LOCK_TIME_THRESHOLD) && required <= lock_time,
        Clause::Older(required) => required & SEQUENCE_DISABLE_FLAG != 0 || (version >= 2 && sequence
            & SEQUENCE_DISABLE_FLAG == 0 && (required & SEQUENCE_TYPE_FLAG) == (sequence
            & SEQUENCE_TYPE_FLAG) && (required & SEQUENCE_LOCK_MASK) <= (sequence
            & SEQUENCE_LOCK_MASK)),
        Clause::TxTemplate(h) => h@ == ctv,
        Clause::And(v) => forall|i: int|
            0 <= i < v@.len() ==> possible(#[trigger] v@[i], version, lock_time, sequence, ctv),
        Clause::Or(v) => exists|i: int|
            0 <= i < v@.len() && possible(#[trigger] v@[i].1, version, lock_time, sequence, ctv),
        Clause::Threshold(k, v) => count_possible(v@, version, lock_time, sequence, ctv) >= k,
        Clause::Inscribe(_, child) => possible(*child, version, lock_time, sequence, ctv),
    }
}

/// How many of the policies are possible.
pub open spec fn count_possible(
    s: Seq<Clause>,
    version: i32,
    lock_time: u32,
    sequence: u32,
    ctv: Seq<u8>,
) -> int
    decreases s,
{
    if s.len() == 0 {
        0
    } else {
        count_possible(s.drop_last(), version, lock_time, sequence, ctv) + if possible(
            s.last(),
            version,
            lock_time,
            sequence,
            ctv,
        ) {
            1int
        } else {
            0
        }
    }
}

pub(crate) proof fn lemma_child_decreases(c: Clause, i: int)
    requires
        c is And,
        0 <= i < c->And_0@.len(),
    ensures
        decreases_to!(c => c->And_0@[i]),
{
    let v = c->And_0;
    assert(decreases_to!(c => v));
    assert(decreases_to!(v => v@));
    assert(decreases_to!(v@ => v@[i]));
}

pub(crate) proof fn lemma_alternative_decreases(c: Clause, i: int)
    requires
        c is Or,
        0 <= i < c->Or_0@.len(),
    ensures
        decreases_to!(c => c->Or_0@[i].1),
{
    let v = c->Or_0;
    assert(decreases_to!(c => v));
    assert(decreases_to!(v => v@));
    assert(decreases_to!(v@ => v@[i]));
    assert(decreases_to!(v@[i] => v@[i].1));
}

pub(crate) proof fn lemma_threshold_decreases(c: Clause, i: int)
    requires
        c is Threshold,
        0 <= i < c->Threshold_1@.len(),
    ensures
        decreases_to!(c => c->Threshold_1@[i]),
{
    let v = c->Threshold_1;
    assert(decreases_to!(c => v));
    assert(decreases_to!(v => v@));
    assert(decreases_to!(v@ => v@[i]));
}

/// Whether a policy is possible with these fields.
fn policy_possible(policy: &Clause, version: i32, lock_time: u32, sequence: u32, ctv: &Vec<u8>) -> (r:
    bool)
    ensures
        r == possible(*policy, version, lock_time, sequence, ctv@),
    decreases policy,
{
    match policy {
        Clause::Unsatisfiable => false,
        Clause::Trivial => true,
        Clause::Key(_) => true,
        Clause::Sha256(_) => true,
        Clause::Hash256(_) => true,
        Clause::Ripemd160(_) => true,
        Clause::Hash160(_) => true,
        Clause::After(required) => sequence != u32::MAX && (lock_time < LOCK_TIME_THRESHOLD) == (
        *required < LOCK_TIME_THRESHOLD) && *required <= lock_time,
        Clause::Older(required) => *required & SEQUENCE_DISABLE_FLAG != 0 || (version >= 2 && sequence
            & SEQUENCE_DISABLE_FLAG == 0 && (*required & SEQUENCE_TYPE_FLAG) == (sequence
            & SEQUENCE_TYPE_FLAG) && (*required & SEQUENCE_LOCK_MASK) <= (sequence
            & SEQUENCE_LOCK_MASK)),
        Clause::TxTemplate(h) => same_bytes(h, ctv),
        Clause::And(v) => {
            let mut i: usize = 0;
            while i < v.len()
                invariant
                    i <= v@.len(),
                    *policy == Clause::And(*v),
                    forall|k: int|
                        0 <= k < i ==> possible(#[trigger] v@[k], version, lock_time, sequence, ctv@),
                decreases v@.len() - i,
            {
                proof {
                    lemma_child_decreases(*policy, i as int);
                }
                if !policy_possible(&v[i], version, lock_time, sequence, ctv) {
                    assert(!possible(v@[i as int], version, lock_time, sequence, ctv@));
                    return false;
                }
                i += 1;
            }
            true
        },
        Clause::Or(v) => {
            let mut i: usize = 0;
            while i < v.len()
                invariant
                    i <= v@.len(),
                    *policy == Clause::Or(*v),
                    forall|k: int|
                        0 <= k < i ==> !possible(
                            #[trigger] v@[k].1,
                            version,
                            lock_time,
                            sequence,
                            ctv@,
                        ),
                decreases v@.len() - i,
            {
                proof {
                    lemma_alternative_decreases(*policy, i as int);
                }
                if policy_possible(&v[i].1, version, lock_time, sequence, ctv) {
                    assert(possible(v@[i as int].1, version, lock_time, sequence, ctv@));
                    return true;
                }
                i += 1;
            }
            false
        },
        Clause::Threshold(k, v) => {
            let mut count: usize = 0;
            let mut i: usize = 0;
            while i < v.len()
                invariant
                    i <= v@.len(),
                    *policy == Clause::Threshold(*k, *v),
                    count == count_possible(v@.take(i as int), version, lock_time, sequence, ctv@),
                    count <= i,
                decreases v@.len() - i,
            {
                assert(v@.take(i + 1).drop_last() =~= v@.take(i as int));
                proof {
                    lemma_threshold_decreases(*policy, i as int);
                }
                if policy_possible(&v[i], version, lock_time, sequence, ctv) {
                    count = count + 1;
                }
                i += 1;
            }
            assert(v@.take(i as int) =~= v@);
            count >= *k
        },
        Clause::Inscribe(_, child) => policy_possible(child, version, lock_time, sequence, ctv),
    }
}

/// Whether two byte strings are equal.
pub(crate) fn same_bytes(a: &Vec<u8>, b: &Vec<u8>) -> (r: bool)
    ensures
        r == (a@ == b@),
{
    if a.len() != b.len() {
        return false;
    }
    let mut i: usize = 0;
    while i < a.len()
        invariant
            i <= a@.len(),
            a@.len() == b@.len(),
            forall|k: int| 0 <= k < i ==> a@[k] == b@[k],
        decreases a@.len() - i,
    {
        if a[i] != b[i] {
            return false;
        }
        i += 1;
    }
    assert(a@ =~= b@);
    true
}

/// The SHA-256 digest of `data`.
pub uninterp spec fn sha256_of(data: Seq<u8>) -> Seq<u8>;

/// Calls `bitcoin::hashes::sha256::Hash::hash`. The contract names its
/// result by the input bytes alone; a SHA-256 digest is 32 bytes.
#[verifier::external_body]
fn sha256(data: &[u8]) -> (r: Vec<u8>)
    ensures
        r@ == sha256_of(data@),
        r@.len() == 32,
{
    let digest = <bitcoin::hashes::sha256::Hash as bitcoin::hashes::Hash>::hash(data);
    <bitcoin::hashes::sha256::Hash as bitcoin::hashes::Hash>::to_byte_array(digest).to_vec()
}

/// Little-endian bytes of a 32-bit value.
pub open spec fn le32(x: u32) -> Seq<u8> {
    seq![
        (x & 0xff) as u8,
        ((x >> 8u32) & 0xff) as u8,
        ((x >> 16u32) & 0xff) as u8,
        ((x >> 24u32) & 0xff) as u8,
    ]
}

/// Little-endian bytes of a 64-bit value.
pub open spec fn le64(x: u64) -> Seq<u8> {
    le32((x & 0xffff_ffff) as u32) + le32((x >> 32u64) as u32)
}

/// The CompactSize encoding of a length.
pub open spec fn compact_size(n: u64) -> Seq<u8> {
    if n < 0xfd {
        seq![n as u8]
    } else if n <= 0xffff {
        seq![0xfdu8, (n & 0xff) as u8, ((n >> 8u64) & 0xff) as u8]
    } else if n <= 0xffff_ffff {
        seq![0xfeu8] + le32(n as u32)
    } else {
        seq![0xffu8] + le64(n)
    }
}

/// A length-prefixed byte string.
pub open spec fn ser_string(s: Seq<u8>) -> Seq<u8> {
    compact_size(s.len() as u64) + s
}

/// Concatenated length-prefixed signature scripts.
pub open spec fn ser_script_sigs(s: Seq<(u32, Seq<u8>)>) -> Seq<u8>
    decreases s.len(),
{
    if s.len() == 0 {
        Seq::empty()
    } else {
        ser_script_sigs(s.drop_last()) + ser_string(s.last().1)
    }
}

/// Concatenated sequences.
pub open spec fn ser_sequences(s: Seq<(u32, Seq<u8>)>) -> Seq<u8>
    decreases s.len(),
{
    if s.len() == 0 {
        Seq::empty()
    } else {
        ser_sequences(s.drop_last()) + le32(s.last().0)
    }
}

/// Concatenated serialized outputs.
pub open spec fn ser_outputs(s: Seq<(u64, Seq<u8>)>) -> Seq<u8>
    decreases s.len(),
{
    if s.len() == 0 {
        Seq::empty()
    } else {
        ser_outputs(s.drop_last()) + le64(s.last().0) + ser_string(s.last().1)
    }
}

/// Some input has a nonempty signature script.
pub open spec fn has_script_sigs(s: Seq<(u32, Seq<u8>)>) -> bool {
    exists|i: int| 0 <= i < s.len() && #[trigger] s[i].1.len() > 0
}

/// The BIP-119 default template preimage of a transaction at an input.
pub open spec fn ctv_preimage(tx: TxView, index: u32) -> Seq<u8> {
    le32(tx.version as u32) + le32(tx.lock_time) + (if has_script_sigs(tx.inputs) {
        sha256_of(ser_script_sigs(tx.inputs))
    } else {
        Seq::empty()
    }) + le32(tx.inputs.len() as u32) + sha256_of(ser_sequences(tx.inputs)) + le32(
        tx.outputs.len() as u32,
    ) + sha256_of(ser_outputs(tx.outputs)) + le32(index)
}

/// The BIP-119 default template hash of a transaction at an input.
pub open spec fn ctv_hash(tx: TxView, index: u32) -> Seq<u8> {
    sha256_of(ctv_preimage(tx, index))
}

fn push_le32(out: &mut Vec<u8>, x: u32)
    ensures
        final(out)@ == old(out)@ + le32(x),
{
    out.push((x & 0xff) as u8);
    out.push(((x >> 8u32) & 0xff) as u8);
    out.push(((x >> 16u32) & 0xff) as u8);
    out.push(((x >> 24u32) & 0xff) as u8);
    assert(final(out)@ =~= old(out)@ + le32(x));
}

fn push_le64(out: &mut Vec<u8>, x: u64)
    ensures
        final(out)@ == old(out)@ + le64(x),
{
    let ghost start = out@;
    push_le32(out, (x & 0xffff_ffff) as u32);
    push_le32(out, (x >> 32u64) as u32);
    assert(out@ =~= start + le64(x));
}

fn push_bytes(out: &mut Vec<u8>, bytes: &[u8])
    ensures
        final(out)@ == old(out)@ + bytes@,
{
    let ghost start = out@;
    let mut i: usize = 0;
    while i < bytes.len()
        invariant
            i <= bytes@.len(),
            out@ == start + bytes@.take(i as int),
        decreases bytes@.len() - i,
    {
        out.push(bytes[i]);
        assert(start + bytes@.take(i + 1) =~= (start + bytes@.take(i as int)).push(bytes@[i as int]));
        i += 1;
    }
    assert(bytes@.take(i as int) =~= bytes@);
}

fn push_string(out: &mut Vec<u8>, s: &[u8])
    ensures
        final(out)@ == old(out)@ + ser_string(s@),
{
    let ghost start = out@;
    let n = s.len() as u64;
    if n < 0xfd {
        out.push(n as u8);
    } else if n <= 0xffff {
        out.push(0xfd);
        out.push((n & 0xff) as u8);
        out.push(((n >> 8u64) & 0xff) as u8);
    } else if n <= 0xffff_ffff {
        out.push(0xfe);
        push_le32(out, n as u32);
    } else {
        out.push(0xff);
        push_le64(out, n);
    }
    assert(out@ =~= start + compact_size(n));
    push_bytes(out, s);
    assert(out@ =~= start + ser_string(s@));
}

/// The BIP-119 default template hash of `tx` at input `index`.
pub fn get_ctv_hash(tx: &Transaction, index: u32) -> (r: Vec<u8>)
    ensures
        r@ == ctv_hash(tx@, index),
{
    let ghost ins = tx@.inputs;
    let ghost outs = tx@.outputs;
    let mut sigs: Vec<u8> = Vec::new();
    let mut sequences: Vec<u8> = Vec::new();
    let mut any_sig = false;
    let mut i: usize = 0;
    while i < tx.input.len()
        invariant
            i <= tx.input@.len(),
            ins == tx@.inputs,
            sigs@ == ser_script_sigs(ins.take(i as int)),
            sequences@ == ser_sequences(ins.take(i as int)),
            any_sig == has_script_sigs(ins.take(i as int)),
        decreases tx.input@.len() - i,
    {
        let ghost before = ins.take(i as int);
        assert(ins.take(i + 1).drop_last() =~= before);
        assert(ins[i as int] == (tx.input@[i as int].sequence, tx.input@[i as int].script_sig@));
        push_string(&mut sigs, tx.input[i].script_sig.as_slice());
        push_le32(&mut sequences, tx.input[i].sequence);
        proof {
            let after = ins.take(i + 1);
            if has_script_sigs(before) {
                let k = choose|k: int| 0 <= k < before.len() && #[trigger] before[k].1.len() > 0;
                assert(after[k] == before[k]);
            }
            if has_script_sigs(after) {
                let k = choose|k: int| 0 <= k < after.len() && #[trigger] after[k].1.len() > 0;
                if k < i {
                    assert(before[k] == after[k]);
                }
            }
            if ins[i as int].1.len() > 0 {
                assert(after[i as int] == ins[i as int]);
            }
        }
        if tx.input[i].script_sig.len() > 0 {
            any_sig = true;
        }
        i += 1;
    }
    assert(ins.take(i as int) =~= ins);
    let mut outputs: Vec<u8> = Vec::new();
    let mut j: usize = 0;
    while j < tx.output.len()
        invariant
            j <= tx.output@.len(),
            outs == tx@.outputs,
            outputs@ == ser_outputs(outs.take(j as int)),
        decreases tx.output@.len() - j,
    {
        assert(outs.take(j + 1).drop_last() =~= outs.take(j as int));
        assert(outs[j as int] == (tx.output@[j as int].value, tx.output@[j as int].script_pubkey@));
        push_le64(&mut outputs, tx.output[j].value);
        push_string(&mut outputs, tx.output[j].script_pubkey.as_slice());
        j += 1;
    }
    assert(outs.take(j as int) =~= outs);
    let mut pre: Vec<u8> = Vec::new();
    push_le32(&mut pre, tx.version as u32);
    push_le32(&mut pre, tx.lock_time);
    if any_sig {
        let digest = sha256(sigs.as_slice());
        push_bytes(&mut pre, digest.as_slice());
    }
    push_le32(&mut pre, tx.input.len() as u32);
    let digest = sha256(sequences.as_slice());
    push_bytes(&mut pre, digest.as_slice());
    push_le32(&mut pre, tx.output.len() as u32);
    let digest = sha256(outputs.as_slice());
    push_bytes(&mut pre, digest.as_slice());
    push_le32(&mut pre, index);
    assert(pre@ =~= ctv_preimage(tx@, index));
    sha256(pre.as_slice())
}

/// Whether a policy has an authorization compatible with the fixed
/// transaction fields at the spending input. Keys and preimages are assumed
/// available; this does not establish chain maturity, funding, or
/// spendability. The template hash is recomputed from the transaction.
pub fn miniscript_policy_possible(policy: &Clause, tx: &Transaction, input_index: u32) -> (r: bool)
    ensures
        r == ((input_index as int) < tx.input@.len() && possible(
            *policy,
            tx.version,
            tx.lock_time,
            tx.input@[input_index as int].sequence,
            ctv_hash(tx@, input_index),
        )),
{
    if input_index as usize >= tx.input.len() {
        return false;
    }
    let ctv = get_ctv_hash(tx, input_index);
    policy_possible(policy, tx.version, tx.lock_time, tx.input[input_index as usize].sequence, &ctv)
}


/// Whether a source policy has an authorization compatible with the fixed
/// fields of the transaction at input zero: native policies as
/// `possible` says, raw script and emulated programs always, and a covenant
/// predicate only where it commits to the transaction's own template hash,
/// however it is lowered.
pub open spec fn source_possible(p: ScriptPolicy, tx: TxView) -> bool
    decreases p,
{
    match p {
        ScriptPolicy::Miniscript(c) => tx.inputs.len() > 0 && possible(
            c,
            tx.version,
            tx.lock_time,
            tx.inputs[0].0,
            ctv_hash(tx, 0),
        ),
        ScriptPolicy::Script(_) => true,
        ScriptPolicy::Program(_) => true,
        ScriptPolicy::Emulatable(h) => tx.inputs.len() > 0 && h@ == ctv_hash(tx, 0),
        ScriptPolicy::And(v) => forall|i: int| 0 <= i < v@.len() ==> source_possible(#[trigger] v@[i], tx),
        ScriptPolicy::Or(v) => exists|i: int| 0 <= i < v@.len() && source_possible(#[trigger] v@[i], tx),
    }
}

/// Whether a source policy has an authorization compatible with the fixed
/// fields of the transaction at input zero.
pub fn source_policy_possible(policy: &ScriptPolicy, tx: &Transaction) -> (r: bool)
    ensures
        r == source_possible(*policy, tx@),
    decreases policy,
{
    match policy {
        ScriptPolicy::Miniscript(clause) => miniscript_policy_possible(clause, tx, 0),
        ScriptPolicy::Script(_) => true,
        ScriptPolicy::Program(_) => true,
        ScriptPolicy::Emulatable(h) => {
            if tx.input.len() == 0 {
                return false;
            }
            let ctv = get_ctv_hash(tx, 0);
            same_bytes(h, &ctv)
        },
        ScriptPolicy::And(v) => {
            let mut i: usize = 0;
            while i < v.len()
                invariant
                    i <= v@.len(),
                    *policy == ScriptPolicy::And(*v),
                    forall|k: int| 0 <= k < i ==> source_possible(#[trigger] v@[k], tx@),
                decreases v@.len() - i,
            {
                proof {
                    lemma_policy_child_decreases(*policy, i as int);
                }
                if !source_policy_possible(&v[i], tx) {
                    assert(!source_possible(v@[i as int], tx@));
                    return false;
                }
                i += 1;
            }
            true
        },
        ScriptPolicy::Or(v) => {
            let mut i: usize = 0;
            while i < v.len()
                invariant
                    i <= v@.len(),
                    *policy == ScriptPolicy::Or(*v),
                    forall|k: int| 0 <= k < i ==> !source_possible(#[trigger] v@[k], tx@),
                decreases v@.len() - i,
            {
                proof {
                    lemma_policy_child_decreases(*policy, i as int);
                }
                if source_policy_possible(&v[i], tx) {
                    assert(source_possible(v@[i as int], tx@));
                    return true;
                }
                i += 1;
            }
            false
        },
    }
}

/// The 32-bit value stored little-endian at bytes `k..k + 4` of `p`.
pub open spec fn u32_at(p: Seq<u8>, k: int) -> int {
    p[k] + 256 * p[k + 1] + 65536 * p[k + 2] + 16777216 * p[k + 3]
}

proof fn lemma_le32_reads_back(x: u32)
    ensures
        le32(x).len() == 4,
        u32_at(le32(x), 0) == x,
{
    assert((x & 0xff) < 256 && ((x >> 8u32) & 0xff) < 256 && ((x >> 16u32) & 0xff) < 256 && ((x
        >> 24u32) & 0xff) < 256) by (bit_vector);
    assert((x & 0xff) + 256 * ((x >> 8u32) & 0xff) + 65536 * ((x >> 16u32) & 0xff) + 16777216 * ((x
        >> 24u32) & 0xff) == x) by (bit_vector);
}

proof fn lemma_u32_at_sub(p: Seq<u8>, k: int, x: u32)
    requires
        0 <= k,
        k + 4 <= p.len(),
        p.subrange(k, k + 4) == le32(x),
    ensures
        u32_at(p, k) == x,
{
    lemma_le32_reads_back(x);
    assert(p[k] == p.subrange(k, k + 4)[0]);
    assert(p[k + 1] == p.subrange(k, k + 4)[1]);
    assert(p[k + 2] == p.subrange(k, k + 4)[2]);
    assert(p[k + 3] == p.subrange(k, k + 4)[3]);
}

/// The layout of eight concatenated parts, with the four-byte parts read
/// back as integers.
#[verifier::rlimit(30)]
proof fn lemma_preimage_layout(
    v: u32,
    l: u32,
    sigs: Seq<u8>,
    ni: u32,
    q: Seq<u8>,
    no: u32,
    o: Seq<u8>,
    ix: u32,
)
    ensures
        ({
            let p = le32(v) + le32(l) + sigs + le32(ni) + q + le32(no) + o + le32(ix);
            let s = sigs.len() as int;
            &&& p.len() == 20 + s + q.len() + o.len()
            &&& u32_at(p, 0) == v
            &&& u32_at(p, 4) == l
            &&& p.subrange(8, 8 + s) == sigs
            &&& u32_at(p, 8 + s) == ni
            &&& p.subrange(12 + s, 12 + s + q.len()) == q
            &&& u32_at(p, 12 + s + q.len()) == no
            &&& p.subrange(16 + s + q.len(), 16 + s + q.len() + o.len()) == o
            &&& u32_at(p, 16 + s + q.len() + o.len()) == ix
        }),
{
    lemma_le32_reads_back(v);
    lemma_le32_reads_back(l);
    lemma_le32_reads_back(ni);
    lemma_le32_reads_back(no);
    lemma_le32_reads_back(ix);
    let p = le32(v) + le32(l) + sigs + le32(ni) + q + le32(no) + o + le32(ix);
    let s = sigs.len() as int;
    let a = q.len() as int;
    let b = o.len() as int;
    assert(p.subrange(0, 4) =~= le32(v));
    lemma_u32_at_sub(p, 0, v);
    assert(p.subrange(4, 8) =~= le32(l));
    lemma_u32_at_sub(p, 4, l);
    assert(p.subrange(8, 8 + s) =~= sigs);
    assert(p.subrange(8 + s, 12 + s) =~= le32(ni));
    lemma_u32_at_sub(p, 8 + s, ni);
    assert(p.subrange(12 + s, 12 + s + a) =~= q);
    assert(p.subrange(12 + s + a, 16 + s + a) =~= le32(no));
    lemma_u32_at_sub(p, 12 + s + a, no);
    assert(p.subrange(16 + s + a, 16 + s + a + b) =~= o);
    assert(p.subrange(16 + s + a + b, 20 + s + a + b) =~= le32(ix));
    lemma_u32_at_sub(p, 16 + s + a + b, ix);
}

/// Law: the template hash of a transaction at an input is the SHA-256 of a
/// preimage that holds, in order, the version, the lock time, the digest of
/// the signature scripts when some input has one, the number of inputs, the
/// digest of the sequences, the number of outputs, the digest of the
/// outputs and the input index, each count and integer as four
/// little-endian bytes.
pub proof fn lemma_ctv_hash_fields(tx: TxView, index: u32)
    requires
        tx.inputs.len() <= u32::MAX,
        tx.outputs.len() <= u32::MAX,
    ensures
        exists|p: Seq<u8>|
            #[trigger] sha256_of(p) == ctv_hash(tx, index) && ({
                let sigs = if exists|i: int| 0 <= i < tx.inputs.len() && #[trigger] tx.inputs[i].1.len() > 0 {
                    sha256_of(ser_script_sigs(tx.inputs))
                } else {
                    Seq::<u8>::empty()
                };
                let s = sigs.len() as int;
                let q = sha256_of(ser_sequences(tx.inputs));
                let o = sha256_of(ser_outputs(tx.outputs));
                &&& p.len() == 20 + s + q.len() + o.len()
                &&& u32_at(p, 0) == tx.version as u32
                &&& u32_at(p, 4) == tx.lock_time
                &&& p.subrange(8, 8 + s) == sigs
                &&& u32_at(p, 8 + s) == tx.inputs.len()
                &&& p.subrange(12 + s, 12 + s + q.len()) == q
                &&& u32_at(p, 12 + s + q.len()) == tx.outputs.len()
                &&& p.subrange(16 + s + q.len(), 16 + s + q.len() + o.len()) == o
                &&& u32_at(p, 16 + s + q.len() + o.len()) == index
            }),
{
    let sigs = if exists|i: int| 0 <= i < tx.inputs.len() && #[trigger] tx.inputs[i].1.len() > 0 {
        sha256_of(ser_script_sigs(tx.inputs))
    } else {
        Seq::<u8>::empty()
    };
    let q = sha256_of(ser_sequences(tx.inputs));
    let o = sha256_of(ser_outputs(tx.outputs));
    assert(has_script_sigs(tx.inputs) == exists|i: int|
        0 <= i < tx.inputs.len() && #[trigger] tx.inputs[i].1.len() > 0);
    lemma_preimage_layout(
        tx.version as u32,
        tx.lock_time,
        sigs,
        tx.inputs.len() as u32,
        q,
        tx.outputs.len() as u32,
        o,
        index,
    );
    let p = ctv_preimage(tx, index);
    assert(sha256_of(p) == ctv_hash(tx, index));
}

/// Law: a conjunction is possible exactly when every one of its policies
/// is; one impossible policy makes it impossible.
pub proof fn lemma_and_possible(v: Vec<Clause>, version: i32, lock_time: u32, sequence: u32, ctv: Seq<u8>)
    ensures
        possible(Clause::And(v), version, lock_time, sequence, ctv) <==> forall|i: int|
            0 <= i < v@.len() ==> possible(#[trigger] v@[i], version, lock_time, sequence, ctv),
        forall|i: int|
            0 <= i < v@.len() && !possible(#[trigger] v@[i], version, lock_time, sequence, ctv) ==> !possible(
                Clause::And(v),
                version,
                lock_time,
                sequence,
                ctv,
            ),
{
    let c = Clause::And(v);
    assert(c->And_0@ == v@);
    if forall|i: int| 0 <= i < v@.len() ==> possible(#[trigger] v@[i], version, lock_time, sequence, ctv) {
        assert(possible(c, version, lock_time, sequence, ctv));
    }
    if possible(c, version, lock_time, sequence, ctv) {
        assert forall|i: int| 0 <= i < v@.len() implies possible(#[trigger] v@[i], version, lock_time, sequence, ctv) by {
            assert(possible(c->And_0@[i], version, lock_time, sequence, ctv));
        }
    }
}

/// Law: an alternative is possible exactly when at least one of its
/// branches is.
pub proof fn lemma_or_possible(
    v: Vec<(usize, Clause)>,
    version: i32,
    lock_time: u32,
    sequence: u32,
    ctv: Seq<u8>,
)
    ensures
        possible(Clause::Or(v), version, lock_time, sequence, ctv) <==> exists|i: int|
            0 <= i < v@.len() && possible(#[trigger] v@[i].1, version, lock_time, sequence, ctv),
{
    let c = Clause::Or(v);
    assert(c->Or_0@ == v@);
    if possible(c, version, lock_time, sequence, ctv) {
        let i = choose|i: int|
            0 <= i < c->Or_0@.len() && possible(#[trigger] c->Or_0@[i].1, version, lock_time, sequence, ctv);
        assert(possible(v@[i].1, version, lock_time, sequence, ctv));
    }
    if exists|i: int| 0 <= i < v@.len() && possible(#[trigger] v@[i].1, version, lock_time, sequence, ctv) {
        let i = choose|i: int|
            0 <= i < v@.len() && possible(#[trigger] v@[i].1, version, lock_time, sequence, ctv);
        assert(possible(c->Or_0@[i].1, version, lock_time, sequence, ctv));
        assert(possible(c, version, lock_time, sequence, ctv));
    }
}

proof fn lemma_count_is_filter(s: Seq<Clause>, version: i32, lock_time: u32, sequence: u32, ctv: Seq<u8>)
    ensures
        count_possible(s, version, lock_time, sequence, ctv) == s.filter(
            |c: Clause| possible(c, version, lock_time, sequence, ctv),
        ).len(),
    decreases s.len(),
{
    reveal(Seq::filter);
    if s.len() > 0 {
        lemma_count_is_filter(s.drop_last(), version, lock_time, sequence, ctv);
    }
}

/// Law: a threshold of `k` is possible exactly when at least `k` of its
/// policies are possible.
pub proof fn lemma_threshold_possible(
    k: usize,
    v: Vec<Clause>,
    version: i32,
    lock_time: u32,
    sequence: u32,
    ctv: Seq<u8>,
)
    ensures
        possible(Clause::Threshold(k, v), version, lock_time, sequence, ctv) <==> v@.filter(
            |c: Clause| possible(c, version, lock_time, sequence, ctv),
        ).len() >= k,
{
    lemma_count_is_filter(v@, version, lock_time, sequence, ctv);
}

/// Law: an inscription does not change what its policy allows.
pub proof fn lemma_inscribe_possible(
    i: Box<crate::policy::Inscription>,
    c: Box<Clause>,
    version: i32,
    lock_time: u32,
    sequence: u32,
    ctv: Seq<u8>,
)
    ensures
        possible(Clause::Inscribe(i, c), version, lock_time, sequence, ctv) == possible(
            *c,
            version,
            lock_time,
            sequence,
            ctv,
        ),
{
}

/// Law: the leaves that need no transaction field: nothing satisfies
/// `Unsatisfiable`; `Trivial`, keys and hash preimages are always possible;
/// a template commitment is possible exactly at its own template hash.
pub proof fn lemma_leaf_possible(bytes: Vec<u8>, version: i32, lock_time: u32, sequence: u32, ctv: Seq<u8>)
    ensures
        !possible(Clause::Unsatisfiable, version, lock_time, sequence, ctv),
        possible(Clause::Trivial, version, lock_time, sequence, ctv),
        possible(Clause::Key(bytes), version, lock_time, sequence, ctv),
        possible(Clause::Sha256(bytes), version, lock_time, sequence, ctv),
        possible(Clause::Hash256(bytes), version, lock_time, sequence, ctv),
        possible(Clause::Ripemd160(bytes), version, lock_time, sequence, ctv),
        possible(Clause::Hash160(bytes), version, lock_time, sequence, ctv),
        possible(Clause::TxTemplate(bytes), version, lock_time, sequence, ctv) <==> bytes@ == ctv,
{
}

/// Law: an absolute lock is met only by a lock time of its own kind
/// (height or time) that has reached it, on an input whose sequence does
/// not disable lock times; and a lock that is met stays met for every
/// earlier requirement of the same kind.
pub proof fn lemma_after_possible(
    required: u32,
    earlier: u32,
    version: i32,
    lock_time: u32,
    sequence: u32,
    ctv: Seq<u8>,
)
    ensures
        possible(Clause::After(required), version, lock_time, sequence, ctv) ==> required <= lock_time
            && sequence != u32::MAX && (required < LOCK_TIME_THRESHOLD) == (lock_time
            < LOCK_TIME_THRESHOLD),
        sequence != u32::MAX && required <= lock_time && (required < LOCK_TIME_THRESHOLD) == (lock_time
            < LOCK_TIME_THRESHOLD) ==> possible(Clause::After(required), version, lock_time, sequence, ctv),
        possible(Clause::After(required), version, lock_time, sequence, ctv) && earlier <= required && (
        earlier < LOCK_TIME_THRESHOLD) == (required < LOCK_TIME_THRESHOLD) ==> possible(
            Clause::After(earlier),
            version,
            lock_time,
            sequence,
            ctv,
        ),
{
}

/// Law: a relative lock whose own disable bit is set is always possible;
/// otherwise it needs a version 2 transaction whose input sequence enables
/// relative locks, counts in the same unit and has reached the required
/// value; and a met lock stays met for every smaller requirement of the
/// same unit.
pub proof fn lemma_older_possible(
    required: u32,
    smaller: u32,
    version: i32,
    lock_time: u32,
    sequence: u32,
    ctv: Seq<u8>,
)
    ensures
        required & SEQUENCE_DISABLE_FLAG != 0 ==> possible(Clause::Older(required), version, lock_time, sequence, ctv),
        required & SEQUENCE_DISABLE_FLAG == 0 && possible(Clause::Older(required), version, lock_time, sequence, ctv)
            ==> version >= 2 && sequence & SEQUENCE_DISABLE_FLAG == 0 && (required & SEQUENCE_TYPE_FLAG)
            == (sequence & SEQUENCE_TYPE_FLAG) && (required & SEQUENCE_LOCK_MASK) <= (sequence
            & SEQUENCE_LOCK_MASK),
        possible(Clause::Older(required), version, lock_time, sequence, ctv) && required & SEQUENCE_DISABLE_FLAG
            == 0 && smaller & SEQUENCE_DISABLE_FLAG == 0 && (smaller & SEQUENCE_TYPE_FLAG) == (required
            & SEQUENCE_TYPE_FLAG) && (smaller & SEQUENCE_LOCK_MASK) <= (required & SEQUENCE_LOCK_MASK)
            ==> possible(Clause::Older(smaller), version, lock_time, sequence, ctv),
{
}

/// The number of bytes CompactSize takes for `n`.
pub open spec fn compact_size_len(n: int) -> int {
    if n < 0xfd {
        1
    } else if n <= 0xffff {
        3
    } else if n <= 0xffff_ffff {
        5
    } else {
        9
    }
}

proof fn lemma_compact_size_len(n: u64)
    ensures
        compact_size(n).len() == compact_size_len(n as int),
{
}

/// Law: the serialized sequences are four bytes per input, and the four
/// bytes at position `4 * i` read back as input `i`'s sequence.
pub proof fn lemma_ser_sequences_layout(s: Seq<(u32, Seq<u8>)>)
    ensures
        ser_sequences(s).len() == 4 * s.len(),
        forall|i: int| 0 <= i < s.len() ==> u32_at(ser_sequences(s), 4 * i) == #[trigger] s[i].0,
    decreases s.len(),
{
    if s.len() > 0 {
        let t = s.drop_last();
        lemma_ser_sequences_layout(t);
        let p = ser_sequences(s);
        lemma_le32_reads_back(s.last().0);
        assert(p == ser_sequences(t) + le32(s.last().0));
        assert forall|i: int| 0 <= i < s.len() implies u32_at(ser_sequences(s), 4 * i) == #[trigger] s[i].0 by {
            if i < t.len() {
                assert(t[i] == s[i]);
                assert(p[4 * i] == ser_sequences(t)[4 * i]);
                assert(p[4 * i + 1] == ser_sequences(t)[4 * i + 1]);
                assert(p[4 * i + 2] == ser_sequences(t)[4 * i + 2]);
                assert(p[4 * i + 3] == ser_sequences(t)[4 * i + 3]);
            } else {
                assert(p.subrange(4 * i, 4 * i + 4) =~= le32(s.last().0));
                lemma_u32_at_sub(p, 4 * i, s.last().0);
            }
        }
    }
}

/// Law: serializing one more output keeps the earlier bytes and appends
/// the value as eight little-endian bytes, then the script's CompactSize
/// length, then the script.
pub proof fn lemma_ser_outputs_push(s: Seq<(u64, Seq<u8>)>, value: u64, script: Seq<u8>)
    requires
        script.len() <= u64::MAX,
    ensures
        ({
            let before = ser_outputs(s);
            let after = ser_outputs(s.push((value, script)));
            let k = before.len() as int;
            &&& after.len() == k + 8 + compact_size_len(script.len() as int) + script.len()
            &&& after.subrange(0, k) == before
            &&& u32_at(after, k) + 4294967296 * u32_at(after, k + 4) == value
            &&& after.subrange(after.len() - script.len(), after.len() as int) == script
        }),
{
    let t = s.push((value, script));
    assert(t.drop_last() =~= s);
    let before = ser_outputs(s);
    let after = ser_outputs(t);
    let lo = (value & 0xffff_ffff) as u32;
    let hi = (value >> 32u64) as u32;
    assert(after == before + (le32(lo) + le32(hi)) + ser_string(script));
    lemma_compact_size_len(script.len() as u64);
    let k = before.len() as int;
    assert(after =~= before + le32(lo) + (le32(hi) + ser_string(script)));
    assert(after.subrange(k, k + 4) =~= le32(lo));
    lemma_u32_at_sub(after, k, lo);
    assert(after.subrange(k + 4, k + 8) =~= le32(hi));
    lemma_u32_at_sub(after, k + 4, hi);
    assert(lo + 4294967296 * hi == value) by {
        assert((value & 0xffff_ffff) + 4294967296 * (value >> 32u64) == value) by (bit_vector);
        assert((value & 0xffff_ffff) < 4294967296) by (bit_vector);
        assert((value >> 32u64) < 4294967296) by (bit_vector);
    }
    assert(after.subrange(0, k) =~= before);
    assert(after.subrange(after.len() - script.len(), after.len() as int) =~= script);
}

/// Law: serializing one more signature script keeps the earlier bytes and
/// appends the script's CompactSize length, then the script.
pub proof fn lemma_ser_script_sigs_push(s: Seq<(u32, Seq<u8>)>, sequence: u32, script: Seq<u8>)
    requires
        script.len() <= u64::MAX,
    ensures
        ({
            let before = ser_script_sigs(s);
            let after = ser_script_sigs(s.push((sequence, script)));
            let k = before.len() as int;
            &&& after.len() == k + compact_size_len(script.len() as int) + script.len()
            &&& after.subrange(0, k) == before
            &&& after.subrange(after.len() - script.len(), after.len() as int) == script
        }),
{
    let t = s.push((sequence, script));
    assert(t.drop_last() =~= s);
    lemma_compact_size_len(script.len() as u64);
    let before = ser_script_sigs(s);
    let after = ser_script_sigs(t);
    assert(after == before + ser_string(script));
    assert(after.subrange(0, before.len() as int) =~= before);
    assert(after.subrange(after.len() - script.len(), after.len() as int) =~= script);
}

/// Law: a conjunction of source policies is possible exactly when each of
/// them is, and an alternative exactly when one of them is.
pub proof fn lemma_source_and_or_possible(v: Vec<ScriptPolicy>, tx: TxView)
    ensures
        source_possible(ScriptPolicy::And(v), tx) <==> forall|i: int|
            0 <= i < v@.len() ==> source_possible(#[trigger] v@[i], tx),
        source_possible(ScriptPolicy::Or(v), tx) <==> exists|i: int|
            0 <= i < v@.len() && source_possible(#[trigger] v@[i], tx),
{
    let c = ScriptPolicy::And(v);
    let d = ScriptPolicy::Or(v);
    assert(c->And_0@ == v@);
    assert(d->Or_0@ == v@);
    if source_possible(c, tx) {
        assert forall|i: int| 0 <= i < v@.len() implies source_possible(#[trigger] v@[i], tx) by {
            assert(source_possible(c->And_0@[i], tx));
        }
    }
    if forall|i: int| 0 <= i < v@.len() ==> source_possible(#[trigger] v@[i], tx) {
        assert(source_possible(c, tx));
    }
    if source_possible(d, tx) {
        let i = choose|i: int| 0 <= i < d->Or_0@.len() && source_possible(#[trigger] d->Or_0@[i], tx);
        assert(source_possible(v@[i], tx));
    }
    if exists|i: int| 0 <= i < v@.len() && source_possible(#[trigger] v@[i], tx) {
        let i = choose|i: int| 0 <= i < v@.len() && source_possible(#[trigger] v@[i], tx);
        assert(source_possible(d->Or_0@[i], tx));
        assert(source_possible(d, tx));
    }
}

/// Law: a native policy is checked at input zero, against that input's
/// sequence and the transaction's own template hash there; a covenant
/// predicate is possible exactly when it commits to that hash; raw scripts
/// and programs are not constrained by the transaction's fields.
pub proof fn lemma_source_leaf_possible(c: Clause, h: Vec<u8>, script: Vec<u8>, tx: TxView)
    ensures
        source_possible(ScriptPolicy::Miniscript(c), tx) <==> (tx.inputs.len() > 0 && possible(
            c,
            tx.version,
            tx.lock_time,
            tx.inputs[0].0,
            ctv_hash(tx, 0),
        )),
        source_possible(ScriptPolicy::Emulatable(h), tx) <==> (tx.inputs.len() > 0 && h@ == ctv_hash(tx, 0)),
        source_possible(ScriptPolicy::Script(script), tx),
{
}

} // verus!
