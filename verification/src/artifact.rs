//! Structural validation of a compiled artifact graph, and the checks that
//! bind its contract input to a funding output.
//!
//! An artifact is a graph of compiled contracts. Each contract stores its
//! templates under their template hashes; each template output funds a child
//! contract. Public fields can describe an inconsistent graph, so the graph
//! is validated, contract by contract in the order given, before it is used.
use vstd::prelude::*;
use crate::actions::TemplateKind;
use crate::builder::{opt_str, output_views, outputs_total};
use crate::context::{FragmentView, PathFragment, duplicate_fragments, fragment_views};
use crate::feasibility::{ctv_hash, same_bytes};
use crate::renamer::{decimal, digit_char, push_decimal};
use crate::template::{
    InputExplanation, Template, copy_bytes, explains_input, template_outputs_total, template_tx,
};

verus! {

/// One transaction of a compiled contract, under the key it is stored by.
pub struct ArtifactTemplate {
    /// The template hash the template is stored under.
    pub key: Vec<u8>,
    /// Whether the template is covenant protected (or only suggested).
    pub committed: bool,
    /// The transaction template.
    pub template: Template,
    /// The number of inputs the template's input metadata describes.
    pub input_metadata: usize,
    /// For each output, the index of the contract it funds.
    pub children: Vec<usize>,
}

/// One compiled contract of an artifact graph.
pub struct ArtifactNode {
    /// The output of the parent contract this contract receives: the
    /// parent's index, the template's index and the output's index; `None`
    /// for the root.
    pub parent: Option<(usize, usize, usize)>,
    /// The compilation path of the contract.
    pub source_path: Vec<PathFragment>,
    /// The script of the contract's address.
    pub address_script: Vec<u8>,
    /// The output script of the contract's descriptor, when one is known.
    pub descriptor_script: Option<Vec<u8>>,
    /// The scripts the known descriptor can execute when spent.
    pub spending_scripts: Vec<Vec<u8>>,
    /// Minimum sats the contract's input must receive.
    pub required_input_amount: u64,
    /// Template hashes the contract's covenant requirements include.
    pub predicates: Vec<Vec<u8>>,
    /// Committed templates first, then suggested ones, each in key order.
    pub templates: Vec<ArtifactTemplate>,
}

/// A compiled artifact: a tree of contracts, the root first, each contract
/// after its parent, in the order validation visits them.
pub struct ArtifactModel {
    pub nodes: Vec<ArtifactNode>,
}

/// The tree shape: every child an output funds is a later contract of the
/// artifact that records that output as its parent, and every contract but
/// the root records a parent.
pub open spec fn artifact_wf(a: &ArtifactModel) -> bool {
    &&& a.nodes@.len() > 0
    &&& a.nodes@[0].parent is None
    &&& forall|n: int, k: int, i: int|
        0 <= n < a.nodes@.len() && 0 <= k < a.nodes@[n].templates@.len() && 0 <= i
            < a.nodes@[n].templates@[k].children@.len() ==> {
            let c = (#[trigger] a.nodes@[n].templates@[k].children@[i]) as int;
            &&& n < c < a.nodes@.len()
            &&& a.nodes@[c].parent == Some((n as usize, k as usize, i as usize))
        }
    &&& forall|c: int| 0 < c < a.nodes@.len() ==> #[trigger] parent_recorded(a, c)
}

/// Contract `c` records an earlier contract's output that funds it.
pub open spec fn parent_recorded(a: &ArtifactModel, c: int) -> bool {
    match a.nodes@[c].parent {
        None => false,
        Some((p, k, i)) => p < c && k < a.nodes@[p as int].templates@.len() && i
            < a.nodes@[p as int].templates@[k as int].children@.len()
            && a.nodes@[p as int].templates@[k as int].children@[i as int] == c,
    }
}

/// Invariants required to bind a compiled artifact to transaction inputs.
#[derive(Debug, PartialEq, Eq, Structural)]
pub enum ArtifactErrorKind {
    /// The descriptor and advertised address describe different scripts.
    DescriptorMismatch,
    /// Binding requires a contract input at index zero.
    MissingInput,
    /// Only index zero is supported by the binder.
    UnsupportedInputIndex(u32),
    /// Input metadata must describe every transaction input exactly once.
    InputMetadataCount,
    /// Output metadata must describe every transaction output exactly once.
    OutputMetadataCount,
    /// The map key, recorded hash and transaction commitment must agree.
    TemplateHashMismatch,
    /// An output's receiving script differs from its child's address.
    OutputMismatch(usize),
    /// A parent output cannot fund its child.
    UnderfundedChild {
        /// The parent transaction output funding the child.
        index: usize,
        /// The amount committed to the parent output.
        available: u64,
        /// The child's input requirement.
        required: u64,
    },
    /// The total output amount is not representable in satoshis.
    OutputAmountOverflow,
    /// The declared funding requirement is smaller than the output total.
    InsufficientAmount,
    /// Input zero's requirement exceeds the aggregate, or a single-input
    /// transaction claims funding from nonexistent auxiliary inputs.
    InvalidInputAmount,
    /// A contract's input requirement is below one of its templates'.
    InvalidInputRequirement,
    /// Every committed template must record the injected covenant policy.
    MissingCovenant,
}

/// The location and cause of an inconsistent artifact.
#[derive(Debug)]
pub struct ArtifactError {
    /// The index of the affected contract.
    pub node: usize,
    /// The key of the affected template, when the fault is in one.
    pub template: Option<Vec<u8>>,
    /// The violated invariant.
    pub kind: ArtifactErrorKind,
}

/// The running output total of the first `k` outputs of template `t` of
/// contract `n`, or the first output fault among them.
pub open spec fn outputs_scan(a: &ArtifactModel, t: &ArtifactTemplate, k: int) -> Result<
    int,
    ArtifactErrorKind,
>
    decreases k,
{
    if k <= 0 {
        Ok(0)
    } else {
        match outputs_scan(a, t, k - 1) {
            Err(e) => Err(e),
            Ok(total) => {
                let o = t.template.outputs@[k - 1];
                let child = a.nodes@[t.children@[k - 1] as int];
                if o.contract.script_pubkey@ != child.address_script@ {
                    Err(ArtifactErrorKind::OutputMismatch((k - 1) as usize))
                } else if o.amount < child.required_input_amount {
                    Err(
                        ArtifactErrorKind::UnderfundedChild {
                            index: (k - 1) as usize,
                            available: o.amount,
                            required: child.required_input_amount,
                        },
                    )
                } else if total + o.amount > u64::MAX {
                    Err(ArtifactErrorKind::OutputAmountOverflow)
                } else {
                    Ok(total + o.amount)
                }
            },
        }
    }
}

/// Whether `key` is among the predicates of contract `node`.
pub open spec fn has_predicate(node: &ArtifactNode, key: Seq<u8>) -> bool {
    exists|j: int| 0 <= j < node.predicates@.len() && (#[trigger] node.predicates@[j])@ == key
}

/// The first invariant template `t` of contract `node` violates, checked in
/// order.
pub open spec fn template_fault(a: &ArtifactModel, node: &ArtifactNode, t: &ArtifactTemplate) -> Option<
    ArtifactErrorKind,
> {
    let tpl = &t.template;
    if tpl.sequences@.len() == 0 {
        Some(ArtifactErrorKind::MissingInput)
    } else if tpl.ctv_index != 0 {
        Some(ArtifactErrorKind::UnsupportedInputIndex(tpl.ctv_index))
    } else if t.input_metadata != tpl.sequences@.len() {
        Some(ArtifactErrorKind::InputMetadataCount)
    } else if t.children@.len() != tpl.outputs@.len() {
        Some(ArtifactErrorKind::OutputMetadataCount)
    } else if t.key@ != tpl.ctv@ || tpl.ctv@ != ctv_hash(template_tx(tpl), 0) {
        Some(ArtifactErrorKind::TemplateHashMismatch)
    } else {
        match outputs_scan(a, t, tpl.outputs@.len() as int) {
            Err(e) => Some(e),
            Ok(total) => if total > tpl.max {
                Some(ArtifactErrorKind::InsufficientAmount)
            } else if tpl.required_input_amount > tpl.max || (tpl.sequences@.len() == 1
                && tpl.required_input_amount != tpl.max) {
                Some(ArtifactErrorKind::InvalidInputAmount)
            } else if node.required_input_amount < tpl.required_input_amount {
                Some(ArtifactErrorKind::InvalidInputRequirement)
            } else if t.committed && !has_predicate(node, t.key@) {
                Some(ArtifactErrorKind::MissingCovenant)
            } else {
                None
            },
        }
    }
}

/// The first fault among the first `k` templates of contract `n`: the
/// template's index and the violated invariant.
pub open spec fn node_fault(a: &ArtifactModel, n: int, k: int) -> Option<(int, ArtifactErrorKind)>
    decreases k,
{
    if k <= 0 {
        None
    } else {
        match node_fault(a, n, k - 1) {
            Some(f) => Some(f),
            None => match template_fault(a, &a.nodes@[n], &a.nodes@[n].templates@[k - 1]) {
                Some(e) => Some((k - 1, e)),
                None => None,
            },
        }
    }
}

/// Whether contract `node` has a descriptor for another script than its
/// address's.
pub open spec fn descriptor_mismatch(node: &ArtifactNode) -> bool {
    node.descriptor_script matches Some(d) && d@ != node.address_script@
}

/// The first fault among the first `m` contracts: the contract's index, the
/// template's index (`None` for a fault of the contract itself) and the
/// violated invariant.
pub open spec fn first_fault(a: &ArtifactModel, m: int) -> Option<(int, Option<int>, ArtifactErrorKind)>
    decreases m,
{
    if m <= 0 {
        None
    } else {
        match first_fault(a, m - 1) {
            Some(f) => Some(f),
            None => if descriptor_mismatch(&a.nodes@[m - 1]) {
                Some((m - 1, None, ArtifactErrorKind::DescriptorMismatch))
            } else {
                match node_fault(a, m - 1, a.nodes@[m - 1].templates@.len() as int) {
                    Some((k, e)) => Some((m - 1, Some(k), e)),
                    None => None,
                }
            },
        }
    }
}

/// The key of the template a fault names, if any.
pub open spec fn fault_key(a: &ArtifactModel, n: int, k: Option<int>) -> Option<Seq<u8>> {
    match k {
        Some(j) => Some(a.nodes@[n].templates@[j].key@),
        None => None,
    }
}

/// The view of an optional byte string.
pub open spec fn opt_bytes(b: Option<Vec<u8>>) -> Option<Seq<u8>> {
    match b {
        Some(v) => Some(v@),
        None => None,
    }
}

/// Whether the artifact satisfies every structural invariant.
pub open spec fn artifact_valid(a: &ArtifactModel) -> bool {
    first_fault(a, a.nodes@.len() as int) is None
}

proof fn lemma_scan_err_stays(a: &ArtifactModel, t: &ArtifactTemplate, k: int, m: int)
    requires
        0 <= k <= m,
        outputs_scan(a, t, k) is Err,
    ensures
        outputs_scan(a, t, m) == outputs_scan(a, t, k),
    decreases m - k,
{
    if m > k {
        lemma_scan_err_stays(a, t, k, m - 1);
    }
}

proof fn lemma_node_fault_stays(a: &ArtifactModel, n: int, k: int, m: int)
    requires
        0 <= k <= m,
        node_fault(a, n, k) is Some,
    ensures
        node_fault(a, n, m) == node_fault(a, n, k),
    decreases m - k,
{
    if m > k {
        lemma_node_fault_stays(a, n, k, m - 1);
    }
}

proof fn lemma_first_fault_stays(a: &ArtifactModel, k: int, m: int)
    requires
        0 <= k <= m,
        first_fault(a, k) is Some,
    ensures
        first_fault(a, m) == first_fault(a, k),
    decreases m - k,
{
    if m > k {
        lemma_first_fault_stays(a, k, m - 1);
    }
}

/// Whether `key` is one of the contract's predicates.
fn contains_predicate(node: &ArtifactNode, key: &Vec<u8>) -> (r: bool)
    ensures
        r == has_predicate(node, key@),
{
    let mut j: usize = 0;
    while j < node.predicates.len()
        invariant
            j <= node.predicates@.len(),
            forall|m: int| 0 <= m < j ==> (#[trigger] node.predicates@[m])@ != key@,
        decreases node.predicates@.len() - j,
    {
        if same_bytes(&node.predicates[j], key) {
            return true;
        }
        j += 1;
    }
    false
}

/// Check one template of contract `node` against every invariant, in order.
fn check_template(a: &ArtifactModel, node: &ArtifactNode, t: &ArtifactTemplate) -> (r: Option<
    ArtifactErrorKind,
>)
    requires
        forall|i: int| 0 <= i < t.children@.len() ==> (#[trigger] t.children@[i]) < a.nodes@.len(),
    ensures
        r == template_fault(a, node, t),
{
    let tpl = &t.template;
    if tpl.sequences.len() == 0 {
        return Some(ArtifactErrorKind::MissingInput);
    }
    if tpl.ctv_index != 0 {
        return Some(ArtifactErrorKind::UnsupportedInputIndex(tpl.ctv_index));
    }
    if t.input_metadata != tpl.sequences.len() {
        return Some(ArtifactErrorKind::InputMetadataCount);
    }
    if t.children.len() != tpl.outputs.len() {
        return Some(ArtifactErrorKind::OutputMetadataCount);
    }
    if !same_bytes(&t.key, &tpl.ctv) || !same_bytes(&tpl.ctv, &tpl.hash()) {
        return Some(ArtifactErrorKind::TemplateHashMismatch);
    }
    let mut total: u64 = 0;
    let mut i: usize = 0;
    while i < tpl.outputs.len()
        invariant
            i <= tpl.outputs@.len(),
            t.children@.len() == tpl.outputs@.len(),
            forall|m: int| 0 <= m < t.children@.len() ==> (#[trigger] t.children@[m]) < a.nodes@.len(),
            outputs_scan(a, t, i as int) == Ok::<int, ArtifactErrorKind>(total as int),
            tpl == &t.template,
            tpl.sequences@.len() > 0,
            tpl.ctv_index == 0,
            t.input_metadata == tpl.sequences@.len(),
            t.key@ == tpl.ctv@,
            tpl.ctv@ == ctv_hash(template_tx(tpl), 0),
        decreases tpl.outputs@.len() - i,
    {
        proof {
            if outputs_scan(a, t, i + 1) is Err {
                lemma_scan_err_stays(a, t, i + 1, tpl.outputs@.len() as int);
            }
        }
        let o = &tpl.outputs[i];
        let child = &a.nodes[t.children[i]];
        if !same_bytes(&o.contract.script_pubkey, &child.address_script) {
            return Some(ArtifactErrorKind::OutputMismatch(i));
        }
        if o.amount < child.required_input_amount {
            return Some(
                ArtifactErrorKind::UnderfundedChild {
                    index: i,
                    available: o.amount,
                    required: child.required_input_amount,
                },
            );
        }
        total = match total.checked_add(o.amount) {
            Some(x) => x,
            None => return Some(ArtifactErrorKind::OutputAmountOverflow),
        };
        i += 1;
    }
    if total > tpl.max {
        return Some(ArtifactErrorKind::InsufficientAmount);
    }
    if tpl.required_input_amount > tpl.max || (tpl.sequences.len() == 1
        && tpl.required_input_amount != tpl.max) {
        return Some(ArtifactErrorKind::InvalidInputAmount);
    }
    if node.required_input_amount < tpl.required_input_amount {
        return Some(ArtifactErrorKind::InvalidInputRequirement);
    }
    if t.committed && !contains_predicate(node, &t.key) {
        return Some(ArtifactErrorKind::MissingCovenant);
    }
    None
}

/// Validate the entire graph before binding or requesting funding: the first
/// contract, in order, with a template that violates an invariant is
/// reported, with that template's key and the first invariant it violates.
///
/// This checks structural consistency and transaction commitments,
/// including suggested transactions. It does not prove policy satisfaction,
/// chain enforcement, funding availability, or the advertised fee rate.
pub fn validate_artifact(a: &ArtifactModel) -> (r: Result<(), ArtifactError>)
    requires
        artifact_wf(a),
    ensures
        r is Ok <==> artifact_valid(a),
        match first_fault(a, a.nodes@.len() as int) {
            None => r is Ok,
            Some((n, k, kind)) => r matches Err(e) && e.node == n && opt_bytes(e.template) == fault_key(
                a,
                n,
                k,
            ) && e.kind == kind,
        },
{
    let mut n: usize = 0;
    while n < a.nodes.len()
        invariant
            n <= a.nodes@.len(),
            artifact_wf(a),
            first_fault(a, n as int) is None,
        decreases a.nodes@.len() - n,
    {
        let node = &a.nodes[n];
        let mismatch = match &node.descriptor_script {
            Some(d) => !same_bytes(d, &node.address_script),
            None => false,
        };
        if mismatch {
            proof {
                lemma_first_fault_stays(a, n + 1, a.nodes@.len() as int);
            }
            return Err(ArtifactError { node: n, template: None, kind: ArtifactErrorKind::DescriptorMismatch });
        }
        let mut k: usize = 0;
        while k < node.templates.len()
            invariant
                n < a.nodes@.len(),
                *node == a.nodes@[n as int],
                k <= node.templates@.len(),
                artifact_wf(a),
                first_fault(a, n as int) is None,
                !descriptor_mismatch(node),
                node_fault(a, n as int, k as int) is None,
            decreases node.templates@.len() - k,
        {
            let t = &node.templates[k];
            assert forall|i: int| 0 <= i < t.children@.len() implies (#[trigger] t.children@[i])
                < a.nodes@.len() by {
                assert(a.nodes@[n as int].templates@[k as int].children@[i] < a.nodes@.len());
            }
            match check_template(a, node, t) {
                Some(kind) => {
                    proof {
                        lemma_node_fault_stays(a, n as int, k + 1, node.templates@.len() as int);
                        lemma_first_fault_stays(a, n + 1, a.nodes@.len() as int);
                    }
                    return Err(ArtifactError { node: n, template: Some(copy_bytes(&t.key)), kind });
                },
                None => {},
            }
            k += 1;
        }
        n += 1;
    }
    Ok(())
}

/// Why a funding output cannot fund a contract input.
#[derive(Debug, PartialEq, Eq, Structural)]
pub enum FundingFault {
    /// The output's script is not the contract's address script.
    ScriptMismatch,
    /// The output holds fewer sats than the contract requires.
    Underfunded {
        /// Sats the output holds.
        available: u64,
        /// Sats the contract requires.
        required: u64,
    },
}

/// Check a known output that funds a contract input: it must pay to the
/// contract's script, and hold at least the contract's required amount.
pub fn check_funding(prev_script: &Vec<u8>, prev_value: u64, address_script: &Vec<u8>, required: u64) -> (r:
    Result<(), FundingFault>)
    ensures
        prev_script@ != address_script@ <==> r == Err::<(), FundingFault>(FundingFault::ScriptMismatch),
        prev_script@ == address_script@ && prev_value < required <==> r == Err::<(), FundingFault>(
            FundingFault::Underfunded { available: prev_value, required },
        ),
        r is Ok <==> (prev_script@ == address_script@ && prev_value >= required),
{
    if !same_bytes(prev_script, address_script) {
        return Err(FundingFault::ScriptMismatch);
    }
    if prev_value < required {
        return Err(FundingFault::Underfunded { available: prev_value, required });
    }
    Ok(())
}

/// The lowercase hexadecimal digit of `d`.
pub open spec fn hex_char(d: int) -> char {
    if d < 10 {
        (48 + d) as char
    } else {
        (87 + d) as char
    }
}

/// Bytes in lowercase hexadecimal, two digits each, in order.
pub open spec fn hex(b: Seq<u8>) -> Seq<char>
    decreases b.len(),
{
    if b.len() == 0 {
        Seq::empty()
    } else {
        hex(b.drop_last()) + seq![hex_char((b.last() / 16) as int), hex_char((b.last() % 16) as int)]
    }
}

/// The name of the field a template is stored in.
pub open spec fn field_name(committed: bool) -> Seq<char> {
    if committed {
        "template_hash_to_template_map"@
    } else {
        "suggested_template_hash_to_template_map"@
    }
}

/// The location suffix of the child funded by output `i` of the template
/// stored under `key`.
pub open spec fn child_segment(committed: bool, key: Seq<u8>, i: int) -> Seq<char> {
    "/"@ + field_name(committed) + "/"@ + hex(key) + "/outputs_info/"@ + decimal(i as nat)
        + "/receiving_contract"@
}

/// Where contract `n` sits in the artifact: empty for the root, and its
/// parent's location followed by the output that funds it otherwise.
pub open spec fn location_of(a: &ArtifactModel, n: int) -> Seq<char>
    decreases n,
{
    if n <= 0 || n >= a.nodes@.len() {
        Seq::empty()
    } else {
        match a.nodes@[n].parent {
            Some((p, k, i)) => if p < n {
                let t = a.nodes@[p as int].templates@[k as int];
                location_of(a, p as int) + child_segment(t.committed, t.key@, i as int)
            } else {
                Seq::empty()
            },
            None => Seq::empty(),
        }
    }
}

/// Appends the lowercase hexadecimal digit `d` to `s`.
fn push_hex_digit(s: &mut String, d: u8)
    requires
        d < 16,
    ensures
        final(s)@ == old(s)@.push(hex_char(d as int)),
{
    proof {
        reveal_strlit("a");
        reveal_strlit("b");
        reveal_strlit("c");
        reveal_strlit("d");
        reveal_strlit("e");
        reveal_strlit("f");
    }
    if d < 10 {
        push_decimal(s, d as u64);
        assert(decimal(d as nat) == seq![digit_char(d as int)]);
        return;
    }
    let digit: &str = if d == 10 {
        "a"
    } else if d == 11 {
        "b"
    } else if d == 12 {
        "c"
    } else if d == 13 {
        "d"
    } else if d == 14 {
        "e"
    } else {
        "f"
    };
    assert(digit@ =~= seq![hex_char(d as int)]);
    s.append(digit);
    assert(s@ =~= old(s)@.push(hex_char(d as int)));
}

/// Appends `b` in lowercase hexadecimal to `s`.
pub(crate) fn push_hex(s: &mut String, b: &Vec<u8>)
    ensures
        final(s)@ == old(s)@ + hex(b@),
{
    let mut i: usize = 0;
    assert(b@.take(0) =~= Seq::<u8>::empty());
    while i < b.len()
        invariant
            i <= b@.len(),
            s@ == old(s)@ + hex(b@.take(i as int)),
        decreases b@.len() - i,
    {
        let ghost before = s@;
        push_hex_digit(s, b[i] / 16);
        push_hex_digit(s, b[i] % 16);
        assert(b@.take(i + 1).drop_last() =~= b@.take(i as int));
        assert(s@ =~= old(s)@ + hex(b@.take(i + 1)));
        i += 1;
    }
    assert(b@.take(i as int) =~= b@);
}

/// Appends the location suffix of the child funded by output `i` of `t`.
fn push_child_segment(s: &mut String, t: &ArtifactTemplate, i: usize)
    ensures
        final(s)@ == old(s)@ + child_segment(t.committed, t.key@, i as int),
{
    proof {
        reveal_strlit("/");
        reveal_strlit("template_hash_to_template_map");
        reveal_strlit("suggested_template_hash_to_template_map");
        reveal_strlit("/outputs_info/");
        reveal_strlit("/receiving_contract");
    }
    s.append("/");
    if t.committed {
        s.append("template_hash_to_template_map");
    } else {
        s.append("suggested_template_hash_to_template_map");
    }
    s.append("/");
    push_hex(s, &t.key);
    s.append("/outputs_info/");
    push_decimal(s, i as u64);
    s.append("/receiving_contract");
    assert(s@ =~= old(s)@ + child_segment(t.committed, t.key@, i as int));
}

/// What bitcoin's script parser reads first from `bytes`: nothing at the
/// end, a failure, or an instruction (its opcode, or `None` for a push)
/// with the number of bytes left after it.
pub uninterp spec fn first_instruction_of(bytes: Seq<u8>) -> Option<Result<(Option<u8>, usize), ()>>;

/// Calls `Script::instructions` of the `bitcoin` crate on the bytes of
/// `script` from `pos` on and takes its first item. Its source reads one
/// byte first, so it yields nothing exactly at the end and consumes at
/// least one byte for an instruction; an opcode instruction is the byte it
/// read. Which instruction and how long a push is are named, not stated.
#[verifier::external_body]
fn instruction_at(script: &Vec<u8>, pos: usize) -> (r: Option<Result<(Option<u8>, usize), ()>>)
    requires
        pos <= script@.len(),
    ensures
        r == first_instruction_of(script@.subrange(pos as int, script@.len() as int)),
        (r is None) == (pos == script@.len()),
        r matches Some(Ok((_, rest))) ==> rest < script@.len() - pos,
        r matches Some(Ok((Some(op), _))) ==> op == script@[pos as int],
{
    let mut it = bitcoin::Script::from_bytes(&script[pos..]).instructions();
    match it.next() {
        None => None,
        Some(Err(_)) => Some(Err(())),
        Some(Ok(bitcoin::script::Instruction::Op(op))) => Some(Ok((Some(op.to_u8()), it.as_script().len()))),
        Some(Ok(bitcoin::script::Instruction::PushBytes(_))) => Some(Ok((None, it.as_script().len()))),
    }
}

/// The opcode assigned to native CTV.
pub open spec fn native_ctv_opcode() -> u8 {
    0xb3
}

/// Whether a script, parsed instruction by instruction until its end or
/// its first parse failure, executes the native CTV opcode; pushed bytes
/// are data.
pub open spec fn native_ctv_in(b: Seq<u8>) -> bool
    decreases b.len(),
{
    match first_instruction_of(b) {
        Some(Ok((op, rest))) => if op == Some(native_ctv_opcode()) {
            true
        } else if rest < b.len() {
            native_ctv_in(b.subrange(b.len() - rest, b.len() as int))
        } else {
            false
        },
        _ => false,
    }
}

/// Whether `script` contains the native CTV opcode as an instruction.
pub fn contains_native_ctv(script: &Vec<u8>) -> (r: bool)
    ensures
        r == native_ctv_in(script@),
{
    let mut pos: usize = 0;
    assert(script@.subrange(0, script@.len() as int) =~= script@);
    loop
        invariant
            pos <= script@.len(),
            native_ctv_in(script@) == native_ctv_in(script@.subrange(pos as int, script@.len() as int)),
        decreases script@.len() - pos,
    {
        let ghost rest_bytes = script@.subrange(pos as int, script@.len() as int);
        match instruction_at(script, pos) {
            None => return false,
            Some(Err(_)) => return false,
            Some(Ok((op, rest))) => {
                if op == Some(0xb3u8) {
                    return true;
                }
                let next = script.len() - rest;
                assert(rest_bytes.subrange(rest_bytes.len() - rest, rest_bytes.len() as int)
                    =~= script@.subrange(next as int, script@.len() as int));
                pos = next;
            },
        }
    }
}

/// Whether a known spending script of some contract of the artifact
/// contains the native CTV opcode.
pub open spec fn requires_native_ctv_spec(a: &ArtifactModel) -> bool {
    exists|n: int, j: int|
        0 <= n < a.nodes@.len() && 0 <= j < a.nodes@[n].spending_scripts@.len() && native_ctv_in(
            #[trigger] a.nodes@[n].spending_scripts@[j]@,
        )
}

/// Whether a known spending script of some contract of the artifact,
/// including every descendant of committed and suggested templates,
/// contains the opcode assigned to native CTV. Address-only contracts have
/// no known spending script.
pub fn requires_native_ctv(a: &ArtifactModel) -> (r: bool)
    ensures
        r == requires_native_ctv_spec(a),
{
    let mut n: usize = 0;
    while n < a.nodes.len()
        invariant
            n <= a.nodes@.len(),
            forall|m: int, j: int|
                0 <= m < n && 0 <= j < a.nodes@[m].spending_scripts@.len() ==> !native_ctv_in(
                    #[trigger] a.nodes@[m].spending_scripts@[j]@,
                ),
        decreases a.nodes@.len() - n,
    {
        let mut j: usize = 0;
        while j < a.nodes[n].spending_scripts.len()
            invariant
                n < a.nodes@.len(),
                j <= a.nodes@[n as int].spending_scripts@.len(),
                forall|m: int, x: int|
                    0 <= m < n && 0 <= x < a.nodes@[m].spending_scripts@.len() ==> !native_ctv_in(
                        #[trigger] a.nodes@[m].spending_scripts@[x]@,
                    ),
                forall|x: int| 0 <= x < j ==> !native_ctv_in(#[trigger] a.nodes@[n as int].spending_scripts@[x]@),
            decreases a.nodes@[n as int].spending_scripts@.len() - j,
        {
            if contains_native_ctv(&a.nodes[n].spending_scripts[j]) {
                return true;
            }
            j += 1;
        }
        n += 1;
    }
    false
}

/// Law: how the native CTV question reads a script's instructions. A
/// script whose first instruction is opcode `0xb3` contains it; a script
/// whose first instruction is anything else contains it exactly when the
/// rest of the script after that instruction does; a script that is empty
/// or fails to parse at its start does not.
pub proof fn lemma_native_ctv_first_instruction(b: Seq<u8>)
    ensures
        first_instruction_of(b) matches Some(Ok((Some(op), _))) ==> (op == 0xb3u8 ==> native_ctv_in(b)),
        first_instruction_of(b) matches Some(Ok((op, rest))) ==> (op != Some(0xb3u8) && rest < b.len()
            ==> native_ctv_in(b) == native_ctv_in(b.subrange(b.len() - rest, b.len() as int))),
        (first_instruction_of(b) is None || first_instruction_of(b) matches Some(Err(_))) ==> !native_ctv_in(b),
{
}

/// Law: one spending script that contains the native CTV instruction, at
/// any position among any contract's scripts, makes the artifact require
/// native CTV.
pub proof fn lemma_native_ctv_in_any_script(a: &ArtifactModel, n: int, j: int)
    requires
        0 <= n < a.nodes@.len(),
        0 <= j < a.nodes@[n].spending_scripts@.len(),
        native_ctv_in(a.nodes@[n].spending_scripts@[j]@),
    ensures
        requires_native_ctv_spec(a),
{
}

/// Law: an artifact none of whose spending scripts contains the native CTV
/// instruction does not require native CTV.
pub proof fn lemma_no_native_ctv(a: &ArtifactModel)
    requires
        forall|n: int, j: int|
            0 <= n < a.nodes@.len() && 0 <= j < a.nodes@[n].spending_scripts@.len() ==> !native_ctv_in(
                #[trigger] a.nodes@[n].spending_scripts@[j]@,
            ),
    ensures
        !requires_native_ctv_spec(a),
{
}

/// Law: giving one contract one more spending script makes the artifact
/// require native CTV exactly when it did before or the new script
/// contains the native CTV instruction.
pub proof fn lemma_native_ctv_add_script(a: &ArtifactModel, b: &ArtifactModel, n: int, script: Vec<u8>)
    requires
        0 <= n < a.nodes@.len(),
        b.nodes@.len() == a.nodes@.len(),
        forall|m: int|
            0 <= m < a.nodes@.len() && m != n ==> #[trigger] b.nodes@[m].spending_scripts@
                == a.nodes@[m].spending_scripts@,
        b.nodes@[n].spending_scripts@ == a.nodes@[n].spending_scripts@.push(script),
    ensures
        requires_native_ctv_spec(b) == (requires_native_ctv_spec(a) || native_ctv_in(script@)),
{
    if requires_native_ctv_spec(a) {
        let (m, j) = choose|m: int, j: int|
            0 <= m < a.nodes@.len() && 0 <= j < a.nodes@[m].spending_scripts@.len() && native_ctv_in(
                #[trigger] a.nodes@[m].spending_scripts@[j]@,
            );
        if m == n {
            assert(b.nodes@[n].spending_scripts@[j] == a.nodes@[n].spending_scripts@[j]);
        } else {
            assert(b.nodes@[m].spending_scripts@ == a.nodes@[m].spending_scripts@);
        }
        assert(native_ctv_in(b.nodes@[m].spending_scripts@[j]@));
    }
    if native_ctv_in(script@) {
        let k = a.nodes@[n].spending_scripts@.len() as int;
        assert(b.nodes@[n].spending_scripts@[k] == script);
        assert(native_ctv_in(b.nodes@[n].spending_scripts@[k]@));
    }
    if requires_native_ctv_spec(b) {
        let (m, j) = choose|m: int, j: int|
            0 <= m < b.nodes@.len() && 0 <= j < b.nodes@[m].spending_scripts@.len() && native_ctv_in(
                #[trigger] b.nodes@[m].spending_scripts@[j]@,
            );
        if m == n {
            if j < a.nodes@[n].spending_scripts@.len() {
                assert(b.nodes@[n].spending_scripts@[j] == a.nodes@[n].spending_scripts@[j]);
                assert(native_ctv_in(a.nodes@[n].spending_scripts@[j]@));
            } else {
                assert(b.nodes@[n].spending_scripts@[j] == script);
            }
        } else {
            assert(b.nodes@[m].spending_scripts@ == a.nodes@[m].spending_scripts@);
            assert(native_ctv_in(a.nodes@[m].spending_scripts@[j]@));
        }
    }
}

/// One output of an explained template.
#[derive(Debug)]
pub struct OutputExplanation {
    /// Transaction output index.
    pub index: usize,
    /// Name supplied by a declarative transaction plan, if present.
    pub name: Option<String>,
    /// Exact committed value.
    pub amount_sats: u64,
    /// Exact committed destination script.
    pub script_pubkey: Vec<u8>,
    /// The index of the contract the output funds.
    pub child: usize,
    /// The location of the contract the output funds.
    pub contract_location: String,
}

/// One explained template of a contract.
#[derive(Debug)]
pub struct TemplateExplanation {
    /// The template hash it is stored under.
    pub key: Vec<u8>,
    /// Covenant protected or suggested.
    pub kind: TemplateKind,
    /// Outputs and reserved fees: the funding the transaction needs.
    pub minimum_funding_sats: u64,
    /// Part of it the contract input supplies.
    pub contract_input_sats: u64,
    /// Funding left for fees once outputs are paid.
    pub reserved_fee_sats: u64,
    /// Transaction version.
    pub version: i32,
    /// Encoded lock time.
    pub lock_time: u32,
    /// Each input, in order.
    pub inputs: Vec<InputExplanation>,
    /// Each output, in order.
    pub outputs: Vec<OutputExplanation>,
}

/// One explained contract of an artifact.
#[derive(Debug)]
pub struct NodeExplanation {
    /// Where the contract sits: empty for the root.
    pub location: String,
    /// The compilation path of the contract.
    pub source_path: Vec<PathFragment>,
    /// The script of the contract's address.
    pub address_script: Vec<u8>,
    /// Minimum sats the contract's input must receive.
    pub required_input_sats: u64,
    /// Its templates, in stored order.
    pub templates: Vec<TemplateExplanation>,
}

/// An explained artifact.
#[derive(Debug)]
pub struct ArtifactExplanation {
    /// Whether a known spending script uses the native CTV opcode.
    pub native_ctv_in_graph: bool,
    /// Each contract, in the artifact's order.
    pub nodes: Vec<NodeExplanation>,
}

/// Every template with plan funding rules names each of its inputs and
/// outputs.
pub open spec fn funding_names_cover(a: &ArtifactModel) -> bool {
    forall|n: int, k: int|
        0 <= n < a.nodes@.len() && 0 <= k < a.nodes@[n].templates@.len() ==> match (
        #[trigger] a.nodes@[n].templates@[k]).template.funding_constraints {
            Some(c) => c.inputs@.len() >= a.nodes@[n].templates@[k].template.sequences@.len()
                && c.outputs@.len() >= a.nodes@[n].templates@[k].template.outputs@.len(),
            None => true,
        }
}

/// What the explanation of output `i` of `t`, in a contract at `loc`,
/// holds.
pub open spec fn explains_output(t: &ArtifactTemplate, loc: Seq<char>, i: int, e: OutputExplanation) -> bool {
    &&& e.index == i
    &&& opt_str(e.name) == match t.template.funding_constraints {
        Some(c) => Some(c.outputs@[i]@),
        None => None,
    }
    &&& e.amount_sats == t.template.outputs@[i].amount
    &&& e.script_pubkey@ == t.template.outputs@[i].contract.script_pubkey@
    &&& e.child == t.children@[i]
    &&& e.contract_location@ == loc + child_segment(t.committed, t.key@, i)
}

/// What the explanation of template `t`, in a contract at `loc`, holds.
pub open spec fn explains_template(t: &ArtifactTemplate, loc: Seq<char>, e: &TemplateExplanation) -> bool {
    let tpl = &t.template;
    &&& e.key@ == t.key@
    &&& e.kind == (if t.committed {
        TemplateKind::Committed
    } else {
        TemplateKind::Suggested
    })
    &&& e.minimum_funding_sats == tpl.max
    &&& e.contract_input_sats == tpl.required_input_amount
    &&& e.reserved_fee_sats == tpl.max - template_outputs_total(tpl)
    &&& e.version == tpl.version
    &&& e.lock_time == tpl.lock_time
    &&& e.inputs@.len() == tpl.sequences@.len()
    &&& forall|i: int| 0 <= i < e.inputs@.len() ==> explains_input(tpl, i, #[trigger] e.inputs@[i])
    &&& e.outputs@.len() == tpl.outputs@.len()
    &&& forall|i: int| 0 <= i < e.outputs@.len() ==> explains_output(t, loc, i, #[trigger] e.outputs@[i])
}

/// What the explanation of contract `n` of `a` holds.
pub open spec fn explains_node(a: &ArtifactModel, n: int, e: &NodeExplanation) -> bool {
    let node = &a.nodes@[n];
    &&& e.location@ == location_of(a, n)
    &&& fragment_views(e.source_path@) == fragment_views(node.source_path@)
    &&& e.address_script@ == node.address_script@
    &&& e.required_input_sats == node.required_input_amount
    &&& e.templates@.len() == node.templates@.len()
    &&& forall|k: int|
        0 <= k < e.templates@.len() ==> explains_template(
            &node.templates@[k],
            location_of(a, n),
            &#[trigger] e.templates@[k],
        )
}

/// In a well-formed artifact, the child an output funds sits at its
/// contract's location followed by that output.
pub proof fn lemma_child_location(a: &ArtifactModel, n: int, k: int, i: int)
    requires
        artifact_wf(a),
        0 <= n < a.nodes@.len(),
        0 <= k < a.nodes@[n].templates@.len(),
        0 <= i < a.nodes@[n].templates@[k].children@.len(),
    ensures
        ({
            let t = a.nodes@[n].templates@[k];
            location_of(a, t.children@[i] as int) == location_of(a, n) + child_segment(
                t.committed,
                t.key@,
                i,
            )
        }),
{
    let c = a.nodes@[n].templates@[k].children@[i] as int;
    assert(n < c < a.nodes@.len());
    assert(a.nodes@[c].parent == Some((n as usize, k as usize, i as usize)));
    assert((n as usize) as int == n);
    assert(a.nodes@[n].templates@.len() == a.nodes@[n].templates.len());
    assert(a.nodes@[n].templates@[k].children@.len() == a.nodes@[n].templates@[k].children.len());
    assert((k as usize) as int == k);
    assert((i as usize) as int == i);
}

proof fn lemma_scan_total(a: &ArtifactModel, t: &ArtifactTemplate, k: int)
    requires
        0 <= k <= t.template.outputs@.len(),
        outputs_scan(a, t, k) is Ok,
    ensures
        outputs_scan(a, t, k)->Ok_0 == outputs_total(output_views(t.template.outputs@).take(k)),
    decreases k,
{
    if k > 0 {
        lemma_scan_total(a, t, k - 1);
        let v = output_views(t.template.outputs@);
        assert(v.take(k).drop_last() =~= v.take(k - 1));
        assert(v[k - 1] == t.template.outputs@[k - 1]@);
    } else {
        assert(output_views(t.template.outputs@).take(0) =~= Seq::<crate::builder::OutputView>::empty());
    }
}

/// A valid artifact's templates pay no more than their funding.
proof fn lemma_valid_totals(a: &ArtifactModel, n: int, k: int)
    requires
        artifact_valid(a),
        0 <= n < a.nodes@.len(),
        0 <= k < a.nodes@[n].templates@.len(),
    ensures
        0 <= template_outputs_total(&a.nodes@[n].templates@[k].template) <= a.nodes@[n].templates@[k].template.max,
        template_fault(a, &a.nodes@[n], &a.nodes@[n].templates@[k]) is None,
{
    let len = a.nodes@.len() as int;
    if first_fault(a, n) is Some {
        lemma_first_fault_stays(a, n, len);
    }
    let tl = a.nodes@[n].templates@.len() as int;
    if node_fault(a, n, k) is Some {
        lemma_node_fault_stays(a, n, k, tl);
        lemma_first_fault_stays(a, n + 1, len);
    }
    if node_fault(a, n, k + 1) is Some {
        lemma_node_fault_stays(a, n, k + 1, tl);
        lemma_first_fault_stays(a, n + 1, len);
    }
    let t = &a.nodes@[n].templates@[k];
    let m = t.template.outputs@.len() as int;
    assert(template_fault(a, &a.nodes@[n], t) is None);
    lemma_scan_total(a, t, m);
    assert(output_views(t.template.outputs@).take(m) =~= output_views(t.template.outputs@));
    crate::builder::lemma_outputs_total_nonneg(output_views(t.template.outputs@));
}

/// Explain one template of a valid artifact, for a contract at `loc`.
fn explain_template(t: &ArtifactTemplate, loc: &String) -> (r: TemplateExplanation)
    requires
        0 <= template_outputs_total(&t.template) <= t.template.max,
        t.children@.len() == t.template.outputs@.len(),
        match t.template.funding_constraints {
            Some(c) => c.inputs@.len() >= t.template.sequences@.len() && c.outputs@.len()
                >= t.template.outputs@.len(),
            None => true,
        },
    ensures
        explains_template(t, loc@, &r),
{
    let tpl = &t.template;
    let mut inputs: Vec<InputExplanation> = Vec::new();
    let mut i: usize = 0;
    while i < tpl.sequences.len()
        invariant
            i <= tpl.sequences@.len(),
            tpl == &t.template,
            match tpl.funding_constraints {
                Some(c) => c.inputs@.len() >= tpl.sequences@.len(),
                None => true,
            },
            inputs@.len() == i,
            forall|k: int| 0 <= k < i ==> explains_input(tpl, k, #[trigger] inputs@[k]),
        decreases tpl.sequences@.len() - i,
    {
        let (name, minimum_sats) = match &tpl.funding_constraints {
            Some(c) => (Some(c.inputs[i].name.clone()), Some(c.inputs[i].minimum)),
            None => (None, if i == 0 {
                Some(tpl.required_input_amount)
            } else {
                None
            }),
        };
        inputs.push(InputExplanation { index: i, name, minimum_sats, sequence: tpl.sequences[i] });
        i += 1;
    }
    let mut outputs: Vec<OutputExplanation> = Vec::new();
    let mut j: usize = 0;
    let mut total: u64 = 0;
    while j < tpl.outputs.len()
        invariant
            j <= tpl.outputs@.len(),
            tpl == &t.template,
            t.children@.len() == tpl.outputs@.len(),
            match tpl.funding_constraints {
                Some(c) => c.outputs@.len() >= tpl.outputs@.len(),
                None => true,
            },
            outputs@.len() == j,
            forall|k: int| 0 <= k < j ==> explains_output(t, loc@, k, #[trigger] outputs@[k]),
            0 <= template_outputs_total(tpl) <= tpl.max,
            total == outputs_total(output_views(tpl.outputs@).take(j as int)),
        decreases tpl.outputs@.len() - j,
    {
        let name = match &tpl.funding_constraints {
            Some(c) => Some(c.outputs[j].clone()),
            None => None,
        };
        proof {
            let v = output_views(tpl.outputs@);
            assert(v.take(j + 1).drop_last() =~= v.take(j as int));
            assert(v[j as int] == tpl.outputs@[j as int]@);
            lemma_prefix_total_le(v, j + 1);
        }
        total = total + tpl.outputs[j].amount;
        let mut contract_location = loc.clone();
        push_child_segment(&mut contract_location, t, j);
        outputs.push(
            OutputExplanation {
                index: j,
                name,
                amount_sats: tpl.outputs[j].amount,
                script_pubkey: copy_bytes(&tpl.outputs[j].contract.script_pubkey),
                child: t.children[j],
                contract_location,
            },
        );
        j += 1;
    }
    assert(output_views(tpl.outputs@).take(j as int) =~= output_views(tpl.outputs@));
    TemplateExplanation {
        key: copy_bytes(&t.key),
        kind: if t.committed {
            TemplateKind::Committed
        } else {
            TemplateKind::Suggested
        },
        minimum_funding_sats: tpl.max,
        contract_input_sats: tpl.required_input_amount,
        reserved_fee_sats: tpl.max - total,
        version: tpl.version,
        lock_time: tpl.lock_time,
        inputs,
        outputs,
    }
}

/// A prefix of outputs totals no more than all of them.
proof fn lemma_prefix_total_le(v: Seq<crate::builder::OutputView>, k: int)
    requires
        0 <= k <= v.len(),
    ensures
        0 <= outputs_total(v.take(k)) <= outputs_total(v),
    decreases v.len() - k,
{
    if k < v.len() {
        lemma_prefix_total_le(v, k + 1);
        assert(v.take(k + 1).drop_last() =~= v.take(k));
        crate::builder::lemma_outputs_total_nonneg(v.take(k));
    } else {
        assert(v.take(k) =~= v);
        crate::builder::lemma_outputs_total_nonneg(v);
    }
}

/// Explain the validated graph, contract by contract and template by
/// template, without compiling contracts or contacting signers: where each
/// contract sits, what each template needs and creates, and whether a known
/// spending script uses native CTV. An inconsistent artifact is refused
/// with the error validation reports.
pub fn explain_artifact(a: &ArtifactModel) -> (r: Result<ArtifactExplanation, ArtifactError>)
    requires
        artifact_wf(a),
        funding_names_cover(a),
    ensures
        r is Ok <==> artifact_valid(a),
        match first_fault(a, a.nodes@.len() as int) {
            None => true,
            Some((n, k, kind)) => r matches Err(e) && e.node == n && opt_bytes(e.template) == fault_key(
                a,
                n,
                k,
            ) && e.kind == kind,
        },
        r matches Ok(x) ==> {
            &&& x.native_ctv_in_graph == requires_native_ctv_spec(a)
            &&& x.nodes@.len() == a.nodes@.len()
            &&& forall|n: int| 0 <= n < x.nodes@.len() ==> explains_node(a, n, &#[trigger] x.nodes@[n])
            &&& forall|n: int, k: int, i: int|
                0 <= n < x.nodes@.len() && 0 <= k < x.nodes@[n].templates@.len() && 0 <= i
                    < x.nodes@[n].templates@[k].outputs@.len() ==> (#[trigger] x.nodes@[n].templates@[k].outputs@[i]).contract_location@
                    == x.nodes@[a.nodes@[n].templates@[k].children@[i] as int].location@
        },
{
    match validate_artifact(a) {
        Ok(()) => {},
        Err(e) => return Err(e),
    }
    let mut nodes: Vec<NodeExplanation> = Vec::new();
    let mut n: usize = 0;
    while n < a.nodes.len()
        invariant
            n <= a.nodes@.len(),
            artifact_wf(a),
            funding_names_cover(a),
            artifact_valid(a),
            nodes@.len() == n,
            forall|m: int| 0 <= m < n ==> explains_node(a, m, &#[trigger] nodes@[m]),
        decreases a.nodes@.len() - n,
    {
        let node = &a.nodes[n];
        let location = match node.parent {
            None => {
                proof {
                    reveal_strlit("");
                    if n > 0 {
                        assert(parent_recorded(a, n as int));
                    }
                }
                String::from_str("")
            },
            Some((p, k, i)) => {
                proof {
                    if n == 0 {
                        assert(a.nodes@[0].parent is None);
                    }
                    assert(parent_recorded(a, n as int));
                    assert(explains_node(a, p as int, &nodes@[p as int]));
                }
                let mut l = nodes[p].location.clone();
                push_child_segment(&mut l, &a.nodes[p].templates[k], i);
                l
            },
        };
        let mut templates: Vec<TemplateExplanation> = Vec::new();
        let mut k: usize = 0;
        while k < node.templates.len()
            invariant
                n < a.nodes@.len(),
                *node == a.nodes@[n as int],
                k <= node.templates@.len(),
                artifact_wf(a),
                funding_names_cover(a),
                artifact_valid(a),
                location@ == location_of(a, n as int),
                templates@.len() == k,
                forall|m: int|
                    0 <= m < k ==> explains_template(
                        &node.templates@[m],
                        location_of(a, n as int),
                        &#[trigger] templates@[m],
                    ),
            decreases node.templates@.len() - k,
        {
            proof {
                lemma_valid_totals(a, n as int, k as int);
            }
            templates.push(explain_template(&node.templates[k], &location));
            k += 1;
        }
        nodes.push(
            NodeExplanation {
                location,
                source_path: duplicate_fragments(&node.source_path),
                address_script: copy_bytes(&node.address_script),
                required_input_sats: node.required_input_amount,
                templates,
            },
        );
        proof {
            assert forall|m: int| 0 <= m < n + 1 implies explains_node(a, m, &#[trigger] nodes@[m]) by {
            }
        }
        n += 1;
    }
    proof {
        assert forall|m: int, k: int, i: int|
            0 <= m < nodes@.len() && 0 <= k < nodes@[m].templates@.len() && 0 <= i
                < nodes@[m].templates@[k].outputs@.len() implies (#[trigger] nodes@[m].templates@[k].outputs@[i]).contract_location@
                == nodes@[a.nodes@[m].templates@[k].children@[i] as int].location@ by {
            assert(explains_node(a, m, &nodes@[m]));
            lemma_valid_totals(a, m, k);
            assert(explains_template(&a.nodes@[m].templates@[k], location_of(a, m), &nodes@[m].templates@[k]));
            lemma_child_location(a, m, k, i);
            let c = a.nodes@[m].templates@[k].children@[i] as int;
            assert(c < a.nodes@.len());
            assert(explains_node(a, c, &nodes@[c]));
        }
    }
    Ok(ArtifactExplanation { native_ctv_in_graph: requires_native_ctv(a), nodes })
}

/// A transaction output being spent: its transaction id and index.
#[derive(Debug)]
pub struct Outpoint {
    /// The spent transaction's id.
    pub txid: Vec<u8>,
    /// The output's index in it.
    pub vout: u32,
}

/// The outputs chosen to fund a template's inputs, one entry per input;
/// `None` leaves an input unresolved. Entry zero is always `None`: the
/// contract input is bound by the graph.
#[derive(Debug)]
pub struct InputMapping {
    /// The template hash the mapping is for.
    pub key: Vec<u8>,
    /// One entry per transaction input.
    pub inputs: Vec<Option<Outpoint>>,
}

/// Why an input mapping cannot be used.
#[derive(Debug, PartialEq, Eq, Structural)]
pub enum MappingFault {
    /// The mapping does not have one entry per transaction input.
    EntryCount,
    /// Entry zero names an output; the contract input is bound by the graph.
    ContractInputMapped,
    /// The mapping names a template the artifact does not hold.
    UnknownTemplate,
}

/// An unusable input mapping and the template it names.
#[derive(Debug)]
pub struct MappingError {
    /// The template hash of the mapping.
    pub template: Vec<u8>,
    /// Why it cannot be used.
    pub fault: MappingFault,
}

/// Entry `j` is the first mapping for `key`.
pub open spec fn first_mapping(m: Seq<InputMapping>, key: Seq<u8>, j: int) -> bool {
    0 <= j < m.len() && m[j].key@ == key && forall|i: int| 0 <= i < j ==> (#[trigger] m[i]).key@ != key
}

/// What is wrong with the mapping for template `t`, if any.
pub open spec fn mapping_fault_of(m: Seq<InputMapping>, t: &ArtifactTemplate) -> Option<MappingFault> {
    if exists|j: int| first_mapping(m, t.key@, j) {
        let j = choose|j: int| first_mapping(m, t.key@, j);
        if m[j].inputs@.len() != t.template.sequences@.len() {
            Some(MappingFault::EntryCount)
        } else if m[j].inputs@.len() > 0 && m[j].inputs@[0] is Some {
            Some(MappingFault::ContractInputMapped)
        } else {
            None
        }
    } else {
        None
    }
}

/// The first faulty mapping among the templates of the first `k` templates
/// of contract `n`.
pub open spec fn node_mapping_fault(a: &ArtifactModel, m: Seq<InputMapping>, n: int, k: int) -> Option<
    (int, MappingFault),
>
    decreases k,
{
    if k <= 0 {
        None
    } else {
        match node_mapping_fault(a, m, n, k - 1) {
            Some(f) => Some(f),
            None => match mapping_fault_of(m, &a.nodes@[n].templates@[k - 1]) {
                Some(f) => Some((k - 1, f)),
                None => None,
            },
        }
    }
}

/// The first faulty mapping among the templates of the first `c` contracts.
pub open spec fn graph_mapping_fault(a: &ArtifactModel, m: Seq<InputMapping>, c: int) -> Option<
    (int, int, MappingFault),
>
    decreases c,
{
    if c <= 0 {
        None
    } else {
        match graph_mapping_fault(a, m, c - 1) {
            Some(f) => Some(f),
            None => match node_mapping_fault(a, m, c - 1, a.nodes@[c - 1].templates@.len() as int) {
                Some((k, f)) => Some((c - 1, k, f)),
                None => None,
            },
        }
    }
}

/// Whether some template of the artifact is stored under `key`.
pub open spec fn holds_key(a: &ArtifactModel, key: Seq<u8>) -> bool {
    exists|n: int, k: int|
        0 <= n < a.nodes@.len() && 0 <= k < a.nodes@[n].templates@.len() && (
        #[trigger] a.nodes@[n].templates@[k]).key@ == key
}

/// Entry `j` is the first mapping for a template the artifact lacks.
pub open spec fn first_unknown(a: &ArtifactModel, m: Seq<InputMapping>, j: int) -> bool {
    0 <= j < m.len() && !holds_key(a, m[j].key@) && forall|i: int|
        0 <= i < j ==> holds_key(a, (#[trigger] m[i]).key@)
}

/// What is wrong with a set of input mappings, checked template by template
/// in the artifact's order, then mapping by mapping: the template hash and
/// the fault.
pub open spec fn input_map_fault(a: &ArtifactModel, m: Seq<InputMapping>) -> Option<
    (Seq<u8>, MappingFault),
> {
    match graph_mapping_fault(a, m, a.nodes@.len() as int) {
        Some((n, k, f)) => Some((a.nodes@[n].templates@[k].key@, f)),
        None => if exists|j: int| first_unknown(a, m, j) {
            let j = choose|j: int| first_unknown(a, m, j);
            Some((m[j].key@, MappingFault::UnknownTemplate))
        } else {
            None
        },
    }
}

fn find_mapping(m: &Vec<InputMapping>, key: &Vec<u8>) -> (r: Option<usize>)
    ensures
        r matches Some(j) ==> first_mapping(m@, key@, j as int),
        r is None ==> forall|i: int| 0 <= i < m@.len() ==> (#[trigger] m@[i]).key@ != key@,
{
    let mut i: usize = 0;
    while i < m.len()
        invariant
            i <= m@.len(),
            forall|x: int| 0 <= x < i ==> (#[trigger] m@[x]).key@ != key@,
        decreases m@.len() - i,
    {
        if same_bytes(&m[i].key, key) {
            return Some(i);
        }
        i += 1;
    }
    None
}

fn check_mapping(m: &Vec<InputMapping>, t: &ArtifactTemplate) -> (r: Option<MappingFault>)
    ensures
        r == mapping_fault_of(m@, t),
{
    match find_mapping(m, &t.key) {
        None => None,
        Some(j) => {
            proof {
                let jj = choose|x: int| first_mapping(m@, t.key@, x);
                assert(jj == j) by {
                    if jj < j {
                        assert(m@[jj].key@ != t.key@);
                    }
                    if j < jj {
                        assert(m@[j as int].key@ != t.key@);
                    }
                }
            }
            if m[j].inputs.len() != t.template.sequences.len() {
                Some(MappingFault::EntryCount)
            } else if m[j].inputs.len() > 0 && m[j].inputs[0].is_some() {
                Some(MappingFault::ContractInputMapped)
            } else {
                None
            }
        },
    }
}

fn artifact_holds_key(a: &ArtifactModel, key: &Vec<u8>) -> (r: bool)
    ensures
        r == holds_key(a, key@),
{
    let mut n: usize = 0;
    while n < a.nodes.len()
        invariant
            n <= a.nodes@.len(),
            forall|x: int, k: int|
                0 <= x < n && 0 <= k < a.nodes@[x].templates@.len() ==> (
                #[trigger] a.nodes@[x].templates@[k]).key@ != key@,
        decreases a.nodes@.len() - n,
    {
        let mut k: usize = 0;
        while k < a.nodes[n].templates.len()
            invariant
                n < a.nodes@.len(),
                k <= a.nodes@[n as int].templates@.len(),
                forall|x: int, y: int|
                    0 <= x < n && 0 <= y < a.nodes@[x].templates@.len() ==> (
                    #[trigger] a.nodes@[x].templates@[y]).key@ != key@,
                forall|y: int| 0 <= y < k ==> (#[trigger] a.nodes@[n as int].templates@[y]).key@ != key@,
            decreases a.nodes@[n as int].templates@.len() - k,
        {
            if same_bytes(&a.nodes[n].templates[k].key, key) {
                return true;
            }
            k += 1;
        }
        n += 1;
    }
    false
}

proof fn lemma_node_mapping_stays(a: &ArtifactModel, m: Seq<InputMapping>, n: int, k: int, j: int)
    requires
        0 <= k <= j,
        node_mapping_fault(a, m, n, k) is Some,
    ensures
        node_mapping_fault(a, m, n, j) == node_mapping_fault(a, m, n, k),
    decreases j - k,
{
    if j > k {
        lemma_node_mapping_stays(a, m, n, k, j - 1);
    }
}

proof fn lemma_graph_mapping_stays(a: &ArtifactModel, m: Seq<InputMapping>, c: int, d: int)
    requires
        0 <= c <= d,
        graph_mapping_fault(a, m, c) is Some,
    ensures
        graph_mapping_fault(a, m, d) == graph_mapping_fault(a, m, c),
    decreases d - c,
{
    if d > c {
        lemma_graph_mapping_stays(a, m, c, d - 1);
    }
}

/// Check the outputs chosen to fund templates' auxiliary inputs before any
/// binding: each mapping has one entry per input of its template, entry zero
/// is left to the graph, and every mapping names a template of the artifact.
/// Templates are checked in the artifact's order, then mappings in theirs.
pub fn check_input_map(a: &ArtifactModel, m: &Vec<InputMapping>) -> (r: Result<(), MappingError>)
    ensures
        match input_map_fault(a, m@) {
            None => r is Ok,
            Some((key, fault)) => r matches Err(e) && e.template@ == key && e.fault == fault,
        },
{
    let mut n: usize = 0;
    while n < a.nodes.len()
        invariant
            n <= a.nodes@.len(),
            graph_mapping_fault(a, m@, n as int) is None,
        decreases a.nodes@.len() - n,
    {
        let mut k: usize = 0;
        while k < a.nodes[n].templates.len()
            invariant
                n < a.nodes@.len(),
                k <= a.nodes@[n as int].templates@.len(),
                graph_mapping_fault(a, m@, n as int) is None,
                node_mapping_fault(a, m@, n as int, k as int) is None,
            decreases a.nodes@[n as int].templates@.len() - k,
        {
            let t = &a.nodes[n].templates[k];
            match check_mapping(m, t) {
                Some(fault) => {
                    proof {
                        lemma_node_mapping_stays(
                            a,
                            m@,
                            n as int,
                            k + 1,
                            a.nodes@[n as int].templates@.len() as int,
                        );
                        lemma_graph_mapping_stays(a, m@, n + 1, a.nodes@.len() as int);
                    }
                    return Err(MappingError { template: copy_bytes(&t.key), fault });
                },
                None => {},
            }
            k += 1;
        }
        n += 1;
    }
    let mut j: usize = 0;
    while j < m.len()
        invariant
            j <= m@.len(),
            graph_mapping_fault(a, m@, a.nodes@.len() as int) is None,
            forall|i: int| 0 <= i < j ==> holds_key(a, (#[trigger] m@[i]).key@),
        decreases m@.len() - j,
    {
        if !artifact_holds_key(a, &m[j].key) {
            proof {
                assert(first_unknown(a, m@, j as int));
                let jj = choose|x: int| first_unknown(a, m@, x);
                assert(jj == j) by {
                    if jj < j {
                        assert(holds_key(a, m@[jj].key@));
                    }
                    if j < jj {
                        assert(holds_key(a, m@[j as int].key@));
                    }
                }
            }
            return Err(
                MappingError { template: copy_bytes(&m[j].key), fault: MappingFault::UnknownTemplate },
            );
        }
        j += 1;
    }
    proof {
        if exists|x: int| first_unknown(a, m@, x) {
            let x = choose|x: int| first_unknown(a, m@, x);
            assert(holds_key(a, m@[x].key@));
        }
    }
    Ok(())
}

/// An outpoint as values.
pub open spec fn op_view(o: &Outpoint) -> (Seq<u8>, u32) {
    (o.txid@, o.vout)
}

/// The placeholder outpoint numbered `v`: an all-zero transaction id.
pub open spec fn placeholder(v: u32) -> (Seq<u8>, u32) {
    (Seq::new(32, |i: int| 0u8), v)
}

/// Whether `o` is reserved, or is the contract input `out`.
pub open spec fn taken(reserved: Seq<(Seq<u8>, u32)>, out: (Seq<u8>, u32), o: (Seq<u8>, u32)) -> bool {
    reserved.contains(o) || o == out
}

/// The first free placeholder number from `v` on, or `None` when none is
/// left.
pub open spec fn next_free(reserved: Seq<(Seq<u8>, u32)>, out: (Seq<u8>, u32), v: u32) -> Option<u32>
    decreases u32::MAX - v,
{
    if !taken(reserved, out, placeholder(v)) {
        Some(v)
    } else if v == u32::MAX {
        None
    } else {
        next_free(reserved, out, (v + 1) as u32)
    }
}

/// Why the inputs of a template cannot be assigned outpoints.
#[derive(Debug, PartialEq, Eq, Structural)]
pub enum AssignFault {
    /// No unused placeholder is left for an unresolved input.
    PlaceholdersExhausted,
    /// The transaction would spend one output twice.
    DuplicateInput,
}

/// The outpoints of inputs `1..k` of a template bound at `out`, with the
/// reserved outpoints and the next placeholder number after them: an input
/// with a mapped outpoint spends it, any other the first free placeholder,
/// which is then reserved. No outpoint may be spent twice.
pub open spec fn assign_spec(
    out: (Seq<u8>, u32),
    mapping: Seq<Option<(Seq<u8>, u32)>>,
    k: int,
    reserved: Seq<(Seq<u8>, u32)>,
    mock: u32,
) -> Result<(Seq<(Seq<u8>, u32)>, Seq<(Seq<u8>, u32)>, u32), AssignFault>
    decreases k,
{
    if k <= 1 {
        Ok((seq![out], reserved, mock))
    } else {
        match assign_spec(out, mapping, k - 1, reserved, mock) {
            Err(e) => Err(e),
            Ok((ins, res, m)) => {
                let mapped = if k - 1 < mapping.len() {
                    mapping[k - 1]
                } else {
                    None
                };
                let step: Result<((Seq<u8>, u32), Seq<(Seq<u8>, u32)>, u32), AssignFault> = match mapped {
                    Some(o) => Ok((o, res, m)),
                    None => match next_free(res, out, m) {
                        None => Err(AssignFault::PlaceholdersExhausted),
                        Some(v) => Ok((placeholder(v), res.push(placeholder(v)), v)),
                    },
                };
                match step {
                    Err(e) => Err(e),
                    Ok((o, res2, m2)) => if ins.contains(o) {
                        Err(AssignFault::DuplicateInput)
                    } else {
                        Ok((ins.push(o), res2, m2))
                    },
                }
            },
        }
    }
}

proof fn lemma_assign_err_stays(
    out: (Seq<u8>, u32),
    mapping: Seq<Option<(Seq<u8>, u32)>>,
    k: int,
    j: int,
    reserved: Seq<(Seq<u8>, u32)>,
    mock: u32,
)
    requires
        1 <= k <= j,
        assign_spec(out, mapping, k, reserved, mock) is Err,
    ensures
        assign_spec(out, mapping, j, reserved, mock) == assign_spec(out, mapping, k, reserved, mock),
    decreases j - k,
{
    if j > k {
        lemma_assign_err_stays(out, mapping, k, j - 1, reserved, mock);
    }
}

/// The mapped outpoints as values.
pub open spec fn mapping_view(m: Seq<Option<Outpoint>>) -> Seq<Option<(Seq<u8>, u32)>> {
    m.map_values(
        |o: Option<Outpoint>|
            match o {
                Some(p) => Some(op_view(&p)),
                None => None,
            },
    )
}

pub(crate) fn copy_outpoint(o: &Outpoint) -> (r: Outpoint)
    ensures
        op_view(&r) == op_view(o),
{
    Outpoint { txid: copy_bytes(&o.txid), vout: o.vout }
}

fn make_placeholder(v: u32) -> (r: Outpoint)
    ensures
        op_view(&r) == placeholder(v),
{
    let mut txid: Vec<u8> = Vec::new();
    let mut i: usize = 0;
    while i < 32
        invariant
            i <= 32,
            txid@ == Seq::new(i as nat, |j: int| 0u8),
        decreases 32 - i,
    {
        txid.push(0);
        assert(txid@ =~= Seq::new((i + 1) as nat, |j: int| 0u8));
        i += 1;
    }
    Outpoint { txid, vout: v }
}

fn same_outpoint(a: &Outpoint, b: &Outpoint) -> (r: bool)
    ensures
        r == (op_view(a) == op_view(b)),
{
    a.vout == b.vout && same_bytes(&a.txid, &b.txid)
}

fn contains_outpoint(s: &Vec<Outpoint>, o: &Outpoint) -> (r: bool)
    ensures
        r == s@.map_values(|p: Outpoint| op_view(&p)).contains(op_view(o)),
{
    let ghost sv = s@.map_values(|p: Outpoint| op_view(&p));
    let mut i: usize = 0;
    while i < s.len()
        invariant
            i <= s@.len(),
            sv == s@.map_values(|p: Outpoint| op_view(&p)),
            forall|j: int| 0 <= j < i ==> sv[j] != op_view(o),
        decreases s@.len() - i,
    {
        if same_outpoint(&s[i], o) {
            assert(sv[i as int] == op_view(o));
            return true;
        }
        i += 1;
    }
    false
}

/// The first free placeholder number from `v` on.
fn find_free(reserved: &Vec<Outpoint>, out: &Outpoint, v: u32) -> (r: Option<u32>)
    ensures
        r == next_free(reserved@.map_values(|p: Outpoint| op_view(&p)), op_view(out), v),
{
    let ghost rv = reserved@.map_values(|p: Outpoint| op_view(&p));
    let mut w = v;
    loop
        invariant
            v <= w,
            rv == reserved@.map_values(|p: Outpoint| op_view(&p)),
            next_free(rv, op_view(out), v) == next_free(rv, op_view(out), w),
        decreases u32::MAX - w,
    {
        let candidate = make_placeholder(w);
        if !contains_outpoint(reserved, &candidate) && !same_outpoint(&candidate, out) {
            return Some(w);
        }
        if w == u32::MAX {
            return None;
        }
        w = w + 1;
    }
}

/// Assign an outpoint to every input of a template bound at `out`: input
/// zero spends `out`; each later input spends its mapped outpoint, or else
/// the first free placeholder, which is reserved. Fails when no placeholder
/// is left or when one outpoint would be spent twice.
pub fn assign_inputs(
    out: &Outpoint,
    mapping: &Vec<Option<Outpoint>>,
    inputs: usize,
    reserved: &mut Vec<Outpoint>,
    next_mock: &mut u32,
) -> (r: Result<Vec<Outpoint>, AssignFault>)
    ensures
        match assign_spec(
            op_view(out),
            mapping_view(mapping@),
            inputs as int,
            old(reserved)@.map_values(|p: Outpoint| op_view(&p)),
            *old(next_mock),
        ) {
            Err(e) => r == Err::<Vec<Outpoint>, AssignFault>(e),
            Ok((ins, res, m)) => r matches Ok(v) && v@.map_values(|p: Outpoint| op_view(&p)) == ins
                && final(reserved)@.map_values(|p: Outpoint| op_view(&p)) == res && *final(next_mock)
                == m,
        },
{
    let ghost ov = op_view(out);
    let ghost mv = mapping_view(mapping@);
    let ghost r0 = reserved@.map_values(|p: Outpoint| op_view(&p));
    let ghost m0 = *next_mock;
    let mut bound: Vec<Outpoint> = Vec::new();
    bound.push(copy_outpoint(out));
    assert(bound@.map_values(|p: Outpoint| op_view(&p)) =~= seq![ov]);
    let mut i: usize = 1;
    while i < inputs
        invariant
            1 <= i,
            i <= inputs || i == 1,
            ov == op_view(out),
            mv == mapping_view(mapping@),
            r0 == old(reserved)@.map_values(|p: Outpoint| op_view(&p)),
            m0 == *old(next_mock),
            assign_spec(ov, mv, i as int, r0, m0) == Ok::<
                (Seq<(Seq<u8>, u32)>, Seq<(Seq<u8>, u32)>, u32),
                AssignFault,
            >((
                bound@.map_values(|p: Outpoint| op_view(&p)),
                reserved@.map_values(|p: Outpoint| op_view(&p)),
                *next_mock,
            )),
        decreases inputs - i,
    {
        let ghost bv = bound@.map_values(|p: Outpoint| op_view(&p));
        let ghost rv = reserved@.map_values(|p: Outpoint| op_view(&p));
        let ghost mk = *next_mock;
        proof {
            if (i as int) < mv.len() {
                assert(mv[i as int] == match mapping@[i as int] {
                    Some(p) => Some(op_view(&p)),
                    None => None::<(Seq<u8>, u32)>,
                });
            }
            if assign_spec(ov, mv, i + 1, r0, m0) is Err {
                lemma_assign_err_stays(ov, mv, i + 1, inputs as int, r0, m0);
            }
        }
        let o = if i < mapping.len() && mapping[i].is_some() {
            match &mapping[i] {
                Some(p) => copy_outpoint(p),
                None => make_placeholder(0),
            }
        } else {
            let v = match find_free(reserved, out, *next_mock) {
                Some(v) => v,
                None => return Err(AssignFault::PlaceholdersExhausted),
            };
            let p = make_placeholder(v);
            reserved.push(make_placeholder(v));
            *next_mock = v;
            assert(reserved@.map_values(|q: Outpoint| op_view(&q)) =~= rv.push(placeholder(v)));
            p
        };
        if contains_outpoint(&bound, &o) {
            return Err(AssignFault::DuplicateInput);
        }
        bound.push(o);
        assert(bound@.map_values(|q: Outpoint| op_view(&q)) =~= bv.push(op_view(&o)));
        i += 1;
    }
    proof {
        if inputs <= 1 {
            assert(assign_spec(ov, mv, inputs as int, r0, m0) == assign_spec(ov, mv, 1, r0, m0));
        }
    }
    Ok(bound)
}

} // verus!
