//! Frozen transaction templates and the local funding rules they retain.
use vstd::prelude::*;
use crate::builder::{
    Output, OutputView, checked_unsigned_size, lemma_outputs_total_nonneg, lemma_outputs_total_prefix, output_views, outputs_total,
    unsigned_size_spec,
};
use crate::encoding::{fee_for_weight, fee_for_weight_spec};
use crate::error::CompilationError;
use crate::feasibility::{Transaction, TxIn, TxOut, TxView, ctv_hash, get_ctv_hash, same_bytes};
use crate::timelocks::{AnyAbsTimeLock, AnyRelTimeLock, SEQUENCE_TYPE_FLAG, abs_encoding, rel_encoding};

verus! {

/// A named minimum contribution, checked against the actual input at binding.
#[derive(Debug)]
pub struct InputRequirement {
    /// Name declared in the transaction plan.
    pub name: String,
    /// Minimum amount this input must supply.
    pub minimum: u64,
}

/// Local funding rules preserved after a transaction plan is frozen.
///
/// Input and output entries retain transaction order. These rules must be
/// checked when preparing a spend; they are not covenant enforcement claims.
#[derive(Debug)]
pub struct FundingConstraints {
    /// Minimum contribution from each input, including the contract at zero.
    pub inputs: Vec<InputRequirement>,
    /// Declared output names, in their committed order.
    pub outputs: Vec<String>,
    /// Greatest fee accepted after the actual input values are known.
    pub maximum_fee: u64,
    /// Required final fee rate, in satoshis per 1,000 weight units.
    pub minimum_feerate: Option<u64>,
}

/// Optional transaction annotations.
#[derive(Debug)]
pub struct TemplateMetadata {
    /// A label for this transaction.
    pub label: Option<String>,
    /// A color to render this node.
    pub color: Option<String>,
}

/// Template holds the data needed to construct a transaction, along with
/// its funding budget and local spending requirements.
#[derive(Debug)]
pub struct Template {
    /// Total of outputs and reserved fees: the amount this transaction needs.
    pub max: u64,
    /// Part of `max` that the contract input must supply.
    pub required_input_amount: u64,
    /// Minimum fee rate, in satoshis per virtual byte.
    pub min_feerate_sats_vbyte: Option<u64>,
    /// Annotations.
    pub metadata: TemplateMetadata,
    /// Transaction version.
    pub version: i32,
    /// Encoded transaction lock time.
    pub lock_time: u32,
    /// Encoded sequence of each input, in order.
    pub sequences: Vec<u32>,
    /// The outputs this transaction creates.
    pub outputs: Vec<Output>,
    /// Funding rules retained by a transaction plan.
    pub funding_constraints: Option<FundingConstraints>,
    /// The template hash recorded with the template.
    pub ctv: Vec<u8>,
    /// The input the recorded hash commits to.
    pub ctv_index: u32,
}

/// Sequence of an input without a relative lock.
pub open spec fn default_sequence() -> u32 {
    SEQUENCE_TYPE_FLAG
}

/// The encoded sequence of an optional relative lock.
pub open spec fn sequence_value(s: Option<AnyRelTimeLock>) -> u32 {
    match s {
        Some(l) => rel_encoding(l),
        None => default_sequence(),
    }
}

/// The encoded lock time of an optional absolute lock.
pub open spec fn lock_time_value(l: Option<AnyAbsTimeLock>) -> u32 {
    match l {
        Some(x) => abs_encoding(x),
        None => 0,
    }
}

/// The metadata views of a template.
pub open spec fn label_view(t: &Template) -> Option<Seq<char>> {
    match t.metadata.label {
        Some(s) => Some(s@),
        None => None,
    }
}

/// Why retained funding constraints are inconsistent with their template.
#[derive(Debug, Clone, PartialEq, Eq)]
pub enum ConstraintFault {
    /// Input requirements do not match the transaction's inputs.
    InputsMismatch,
    /// Output names do not match the transaction's outputs.
    OutputsMismatch,
    /// Input and output names must be nonempty and unique within each group.
    InvalidNames,
    /// Named contributions do not match the template funding budget.
    BudgetMismatch,
    /// Outputs exceed the funding budget.
    OutputsExceedBudget,
    /// The fee cap is smaller than the reserved fees.
    FeeCapBelowReserve,
    /// The fee cap is below the fee the unsigned transaction already needs
    /// at the minimum fee rate.
    FeeCapBelowRate {
        /// The declared fee cap.
        cap: u64,
        /// Fee of the unsigned transaction at the minimum rate.
        required: u64,
    },
}

/// A transaction or its funding does not satisfy a retained local constraint.
#[derive(Debug)]
pub enum FundingError {
    /// Retained constraints are inconsistent with the template.
    InvalidConstraints(ConstraintFault),
    /// The funded transaction changes a committed template field.
    TransactionMismatch,
    /// The supplied amounts do not correspond to every input.
    InputCount,
    /// A named input cannot supply its declared contribution.
    UnderfundedInput {
        /// Transaction input index.
        index: usize,
        /// Author-assigned funding role.
        name: String,
        /// Value of the spent output.
        available: u64,
        /// Minimum contribution declared for this input.
        required: u64,
    },
    /// Aggregate values or a fee calculation overflow.
    Overflow,
    /// The transaction cannot pay outputs and reserved fees.
    InsufficientFunding {
        /// Aggregate input value.
        available: u64,
        /// Value needed for outputs and reserved fees.
        required: u64,
    },
    /// Additional funding would exceed the author's explicit fee cap.
    ExcessiveFee {
        /// Fee implied by input and output values.
        actual: u64,
        /// Author's explicit fee cap.
        maximum: u64,
    },
    /// The observed complete witness weight violates the requested fee rate.
    InsufficientFeeRate {
        /// Fee implied by inputs and outputs.
        fee: u64,
        /// Minimum fee at the observed transaction weight.
        required: u64,
        /// Complete transaction weight, including witnesses.
        weight_wu: u64,
    },
}

/// Funding and fee information, including obligations that remain unresolved.
#[derive(Debug)]
pub struct FundingReport {
    /// Sum of all available previous-output amounts.
    pub known_input_sats: u64,
    /// Exact committed output total.
    pub output_sats: u64,
    /// Minimum fee reserved by the constructor.
    pub reserved_fee_sats: u64,
    /// Input indexes for which no funding evidence was supplied.
    pub missing_inputs: Vec<usize>,
    /// Actual fee, known only when all input amounts are present.
    pub actual_fee_sats: Option<u64>,
    /// Explicit local fee cap, if declared by a transaction plan.
    pub maximum_fee_sats: Option<u64>,
    /// Minimum local fee rate in satoshis per 1,000 weight units.
    pub minimum_feerate_sat_kwu: Option<u64>,
    /// Observed weight when all final scriptSig/witness fields are supplied.
    /// This measures the transaction; it does not verify those witnesses.
    pub observed_weight_wu: Option<u64>,
    /// A requested fee rate still needs final witness sizes.
    pub fee_rate_pending: bool,
}

/// What a funded transaction shows about itself, as plain values.
#[derive(Debug)]
pub struct FundingEvidence {
    /// The fields of the unsigned transaction.
    pub unsigned_tx: Transaction,
    /// Value of each spent output, in input order, where it is known.
    pub prevout_amounts: Vec<Option<u64>>,
    /// Weight with every input's final scriptSig and witness, present only
    /// when every input carries one of them.
    pub finalized_weight_wu: Option<u64>,
}

/// Names of input requirements.
pub open spec fn requirement_names(s: Seq<InputRequirement>) -> Seq<Seq<char>> {
    s.map_values(|i: InputRequirement| i.name@)
}

/// Views of strings.
pub open spec fn string_views(s: Seq<String>) -> Seq<Seq<char>> {
    s.map_values(|x: String| x@)
}

/// Every name is nonempty and no name occurs twice.
pub open spec fn names_valid(s: Seq<Seq<char>>) -> bool {
    &&& forall|i: int| 0 <= i < s.len() ==> #[trigger] s[i].len() > 0
    &&& forall|i: int, j: int| 0 <= i < j < s.len() ==> s[i] != s[j]
}

/// Sum of the declared minimum contributions.
pub open spec fn minimums_total(s: Seq<InputRequirement>) -> int
    decreases s.len(),
{
    if s.len() == 0 {
        0
    } else {
        minimums_total(s.drop_last()) + s.last().minimum
    }
}

/// Sum of a template's output amounts.
pub open spec fn template_outputs_total(t: &Template) -> int {
    outputs_total(output_views(t.outputs@))
}

/// Serialized size of a template's unsigned transaction.
pub open spec fn template_base_size(t: &Template) -> int {
    unsigned_size_spec(t.sequences@.len() as int, output_views(t.outputs@))
}

/// The outcome of checking retained constraints against their template,
/// check by check in order.
pub open spec fn constraints_check(t: &Template) -> Result<(), FundingError> {
    match t.funding_constraints {
        None => Ok(()),
        Some(c) => if c.inputs@.len() != t.sequences@.len() || c.inputs@.len() == 0 {
            Err(FundingError::InvalidConstraints(ConstraintFault::InputsMismatch))
        } else if c.outputs@.len() != t.outputs@.len() {
            Err(FundingError::InvalidConstraints(ConstraintFault::OutputsMismatch))
        } else if !names_valid(requirement_names(c.inputs@)) || !names_valid(
            string_views(c.outputs@),
        ) {
            Err(FundingError::InvalidConstraints(ConstraintFault::InvalidNames))
        } else if minimums_total(c.inputs@) > u64::MAX {
            Err(FundingError::Overflow)
        } else if minimums_total(c.inputs@) != t.max || c.inputs@[0].minimum
            != t.required_input_amount {
            Err(FundingError::InvalidConstraints(ConstraintFault::BudgetMismatch))
        } else if template_outputs_total(t) > u64::MAX {
            Err(FundingError::Overflow)
        } else if t.max < template_outputs_total(t) {
            Err(FundingError::InvalidConstraints(ConstraintFault::OutputsExceedBudget))
        } else if c.maximum_fee < t.max - template_outputs_total(t) {
            Err(FundingError::InvalidConstraints(ConstraintFault::FeeCapBelowReserve))
        } else {
            match c.minimum_feerate {
                None => Ok(()),
                Some(rate) => if template_base_size(t) * 4 > u64::MAX {
                    Err(FundingError::Overflow)
                } else {
                    match fee_for_weight_spec(rate, (template_base_size(t) * 4) as u64) {
                        None => Err(FundingError::Overflow),
                        Some(required) => if required > c.maximum_fee {
                            Err(
                                FundingError::InvalidConstraints(
                                    ConstraintFault::FeeCapBelowRate {
                                        cap: c.maximum_fee,
                                        required,
                                    },
                                ),
                            )
                        } else {
                            Ok(())
                        },
                    }
                },
            }
        },
    }
}

proof fn lemma_minimums_prefix(s: Seq<InputRequirement>, i: int)
    requires
        0 <= i <= s.len(),
    ensures
        0 <= minimums_total(s.take(i)) <= minimums_total(s),
    decreases s.len() - i,
{
    if i < s.len() {
        lemma_minimums_prefix(s, i + 1);
        assert(s.take(i + 1).drop_last() =~= s.take(i));
        lemma_minimums_nonneg(s.take(i));
    } else {
        assert(s.take(i) =~= s);
        lemma_minimums_nonneg(s);
    }
}

proof fn lemma_minimums_nonneg(s: Seq<InputRequirement>)
    ensures
        minimums_total(s) >= 0,
    decreases s.len(),
{
    if s.len() > 0 {
        lemma_minimums_nonneg(s.drop_last());
    }
}

/// Whether every name is nonempty and unique.
fn strings_valid(names: &Vec<String>) -> (r: bool)
    ensures
        r == names_valid(string_views(names@)),
{
    let ghost v = string_views(names@);
    let mut i: usize = 0;
    while i < names.len()
        invariant
            i <= names@.len(),
            v == string_views(names@),
            v.len() == names@.len(),
            forall|k: int| 0 <= k < i ==> #[trigger] v[k].len() > 0,
            forall|k: int, j: int| 0 <= k < j < i ==> v[k] != v[j],
        decreases names@.len() - i,
    {
        assert(v[i as int] == names@[i as int]@);
        if names[i].as_str().is_empty() {
            assert(v[i as int].len() == 0);
            return false;
        }
        let mut j: usize = 0;
        while j < i
            invariant
                j <= i < names@.len(),
                v == string_views(names@),
                v.len() == names@.len(),
                forall|k: int| 0 <= k < j ==> v[k] != v[i as int],
            decreases i - j,
        {
            assert(v[j as int] == names@[j as int]@);
            if names[j] == names[i] {
                assert(v[j as int] == v[i as int]);
                return false;
            }
            j += 1;
        }
        i += 1;
    }
    true
}

/// Whether every requirement name is nonempty and unique.
fn requirement_names_valid(inputs: &Vec<InputRequirement>) -> (r: bool)
    ensures
        r == names_valid(requirement_names(inputs@)),
{
    let ghost v = requirement_names(inputs@);
    let mut i: usize = 0;
    while i < inputs.len()
        invariant
            i <= inputs@.len(),
            v == requirement_names(inputs@),
            v.len() == inputs@.len(),
            forall|k: int| 0 <= k < i ==> #[trigger] v[k].len() > 0,
            forall|k: int, j: int| 0 <= k < j < i ==> v[k] != v[j],
        decreases inputs@.len() - i,
    {
        assert(v[i as int] == inputs@[i as int].name@);
        if inputs[i].name.as_str().is_empty() {
            assert(v[i as int].len() == 0);
            return false;
        }
        let mut j: usize = 0;
        while j < i
            invariant
                j <= i < inputs@.len(),
                v == requirement_names(inputs@),
                v.len() == inputs@.len(),
                forall|k: int| 0 <= k < j ==> v[k] != v[i as int],
            decreases i - j,
        {
            assert(v[j as int] == inputs@[j as int].name@);
            if inputs[j].name == inputs[i].name {
                assert(v[j as int] == v[i as int]);
                return false;
            }
            j += 1;
        }
        i += 1;
    }
    true
}

/// Sum of the minimum contributions, or `None` on overflow.
fn checked_minimums(inputs: &Vec<InputRequirement>) -> (r: Option<u64>)
    ensures
        minimums_total(inputs@) >= 0,
        r == (if minimums_total(inputs@) <= u64::MAX {
            Some(minimums_total(inputs@) as u64)
        } else {
            None::<u64>
        }),
{
    let mut total: u64 = 0;
    let mut i: usize = 0;
    while i < inputs.len()
        invariant
            i <= inputs@.len(),
            total == minimums_total(inputs@.take(i as int)),
        decreases inputs@.len() - i,
    {
        assert(inputs@.take(i + 1).drop_last() =~= inputs@.take(i as int));
        proof {
            lemma_minimums_prefix(inputs@, i + 1);
        }
        total = match total.checked_add(inputs[i].minimum) {
            Some(x) => x,
            None => return None,
        };
        i += 1;
    }
    assert(inputs@.take(i as int) =~= inputs@);
    Some(total)
}

impl Template {
    /// Sum of output amounts, or `Overflow`.
    fn checked_output_total(&self) -> (r: Result<u64, FundingError>)
        ensures
            template_outputs_total(self) >= 0,
            r == (if template_outputs_total(self) <= u64::MAX {
                Ok::<u64, FundingError>(template_outputs_total(self) as u64)
            } else {
                Err(FundingError::Overflow)
            }),
    {
        let ghost views = output_views(self.outputs@);
        proof {
            lemma_outputs_total_nonneg(views);
        }
        let mut total: u64 = 0;
        let mut i: usize = 0;
        while i < self.outputs.len()
            invariant
                i <= self.outputs@.len(),
                views == output_views(self.outputs@),
                total == outputs_total(views.take(i as int)),
            decreases self.outputs@.len() - i,
        {
            assert(views.take(i + 1).drop_last() =~= views.take(i as int));
            proof {
                lemma_outputs_total_prefix(views, i + 1);
            }
            total = match total.checked_add(self.outputs[i].amount) {
                Some(x) => x,
                None => return Err(FundingError::Overflow),
            };
            i += 1;
        }
        assert(views.take(i as int) =~= views);
        Ok(total)
    }

    /// Check the internal consistency of retained local funding constraints.
    pub fn validate_funding_constraints(&self) -> (r: Result<(), FundingError>)
        ensures
            r == constraints_check(self),
    {
        let c = match &self.funding_constraints {
            None => return Ok(()),
            Some(c) => c,
        };
        if c.inputs.len() != self.sequences.len() || c.inputs.len() == 0 {
            return Err(FundingError::InvalidConstraints(ConstraintFault::InputsMismatch));
        }
        if c.outputs.len() != self.outputs.len() {
            return Err(FundingError::InvalidConstraints(ConstraintFault::OutputsMismatch));
        }
        if !requirement_names_valid(&c.inputs) || !strings_valid(&c.outputs) {
            return Err(FundingError::InvalidConstraints(ConstraintFault::InvalidNames));
        }
        let total = match checked_minimums(&c.inputs) {
            Some(t) => t,
            None => return Err(FundingError::Overflow),
        };
        if total != self.max || c.inputs[0].minimum != self.required_input_amount {
            return Err(FundingError::InvalidConstraints(ConstraintFault::BudgetMismatch));
        }
        let outputs = match self.checked_output_total() {
            Ok(o) => o,
            Err(e) => return Err(e),
        };
        let reserved = match self.max.checked_sub(outputs) {
            Some(r) => r,
            None => return Err(FundingError::InvalidConstraints(ConstraintFault::OutputsExceedBudget)),
        };
        if c.maximum_fee < reserved {
            return Err(FundingError::InvalidConstraints(ConstraintFault::FeeCapBelowReserve));
        }
        match c.minimum_feerate {
            None => Ok(()),
            Some(rate) => {
                let size = match checked_unsigned_size(self.sequences.len(), &self.outputs) {
                    Some(s) => s,
                    None => return Err(FundingError::Overflow),
                };
                let weight = match size.checked_mul(4) {
                    Some(w) => w,
                    None => return Err(FundingError::Overflow),
                };
                let required = match fee_for_weight(rate, weight) {
                    Some(f) => f,
                    None => return Err(FundingError::Overflow),
                };
                if required > c.maximum_fee {
                    return Err(
                        FundingError::InvalidConstraints(
                            ConstraintFault::FeeCapBelowRate { cap: c.maximum_fee, required },
                        ),
                    );
                }
                Ok(())
            },
        }
    }
}


/// Running total of the known amounts among the first `k`, and the indexes
/// of the missing ones; or the first input found below its declared
/// minimum, or an overflowing total.
pub open spec fn scan_amounts(
    c: Option<FundingConstraints>,
    amounts: Seq<Option<u64>>,
    k: int,
) -> Result<(int, Seq<usize>), FundingError>
    decreases k,
{
    if k <= 0 {
        Ok((0, Seq::empty()))
    } else {
        match scan_amounts(c, amounts, k - 1) {
            Err(e) => Err(e),
            Ok((known, missing)) => match amounts[k - 1] {
                None => Ok((known, missing.push((k - 1) as usize))),
                Some(a) => if c is Some && a < c->Some_0.inputs@[k - 1].minimum {
                    Err(
                        FundingError::UnderfundedInput {
                            index: (k - 1) as usize,
                            name: c->Some_0.inputs@[k - 1].name,
                            available: a,
                            required: c->Some_0.inputs@[k - 1].minimum,
                        },
                    )
                } else if known + a > u64::MAX {
                    Err(FundingError::Overflow)
                } else {
                    Ok((known + a, missing))
                },
            },
        }
    }
}

/// The declared fee cap, if any.
pub open spec fn maximum_fee_of(t: &Template) -> Option<u64> {
    match t.funding_constraints {
        Some(c) => Some(c.maximum_fee),
        None => None,
    }
}

/// The required fee rate, if any.
pub open spec fn feerate_of(t: &Template) -> Option<u64> {
    match t.funding_constraints {
        Some(c) => c.minimum_feerate,
        None => None,
    }
}

/// The outcome of checking amounts against a template: on success the
/// known input total, the missing indexes and the actual fee where all
/// amounts are known.
pub open spec fn funding_check(t: &Template, amounts: Seq<Option<u64>>) -> Result<
    (int, Seq<usize>, Option<u64>),
    FundingError,
> {
    match constraints_check(t) {
        Err(e) => Err(e),
        Ok(_) => if amounts.len() != t.sequences@.len() {
            Err(FundingError::InputCount)
        } else if template_outputs_total(t) > u64::MAX {
            Err(FundingError::Overflow)
        } else if t.max < template_outputs_total(t) {
            Err(FundingError::InvalidConstraints(ConstraintFault::OutputsExceedBudget))
        } else {
            match scan_amounts(t.funding_constraints, amounts, amounts.len() as int) {
                Err(e) => Err(e),
                Ok((known, missing)) => {
                    let outputs = template_outputs_total(t);
                    if maximum_fee_of(t) is Some && known >= outputs && known - outputs
                        > maximum_fee_of(t)->Some_0 {
                        Err(
                            FundingError::ExcessiveFee {
                                actual: (known - outputs) as u64,
                                maximum: maximum_fee_of(t)->Some_0,
                            },
                        )
                    } else if missing.len() == 0 && known < t.max {
                        Err(
                            FundingError::InsufficientFunding {
                                available: known as u64,
                                required: t.max,
                            },
                        )
                    } else if missing.len() == 0 {
                        Ok((known, missing, Some((known - outputs) as u64)))
                    } else {
                        Ok((known, missing, None))
                    }
                },
            }
        },
    }
}

/// A report agrees with a successful funding check of `t`.
pub open spec fn report_matches(
    t: &Template,
    rep: &FundingReport,
    known: int,
    missing: Seq<usize>,
    actual: Option<u64>,
) -> bool {
    &&& rep.known_input_sats == known
    &&& rep.output_sats == template_outputs_total(t)
    &&& rep.reserved_fee_sats == t.max - template_outputs_total(t)
    &&& rep.missing_inputs@ == missing
    &&& rep.actual_fee_sats == actual
    &&& rep.maximum_fee_sats == maximum_fee_of(t)
    &&& rep.minimum_feerate_sat_kwu == feerate_of(t)
}

proof fn lemma_scan_bounds(c: Option<FundingConstraints>, amounts: Seq<Option<u64>>, k: int)
    requires
        0 <= k <= amounts.len(),
    ensures
        scan_amounts(c, amounts, k) matches Ok((known, missing)) ==> 0 <= known <= u64::MAX
            && missing.len() <= k && (forall|i: int|
            0 <= i < missing.len() ==> #[trigger] missing[i] < k),
    decreases k,
{
    if k > 0 {
        lemma_scan_bounds(c, amounts, k - 1);
    }
}

proof fn lemma_scan_err_stays(
    c: Option<FundingConstraints>,
    amounts: Seq<Option<u64>>,
    k: int,
    m: int,
)
    requires
        0 <= k <= m,
        scan_amounts(c, amounts, k) is Err,
    ensures
        scan_amounts(c, amounts, m) == scan_amounts(c, amounts, k),
    decreases m - k,
{
    if m > k {
        lemma_scan_err_stays(c, amounts, k, m - 1);
    }
}

impl Template {
    /// Check ordered funding amounts already authenticated by the caller.
    /// Missing inputs remain explicit. This performs no signing or chain lookup.
    pub fn check_funding_amounts(&self, amounts: &[Option<u64>]) -> (r: Result<
        FundingReport,
        FundingError,
    >)
        ensures
            match funding_check(self, amounts@) {
                Err(e) => r matches Err(f) && f == e,
                Ok((known, missing, actual)) => r matches Ok(rep) && report_matches(
                    self,
                    &rep,
                    known,
                    missing,
                    actual,
                ) && rep.observed_weight_wu is None && rep.fee_rate_pending == (feerate_of(
                    self,
                ) is Some),
            },
    {
        match self.validate_funding_constraints() {
            Ok(_) => {},
            Err(e) => return Err(e),
        }
        if amounts.len() != self.sequences.len() {
            return Err(FundingError::InputCount);
        }
        let outputs = match self.checked_output_total() {
            Ok(o) => o,
            Err(e) => return Err(e),
        };
        let reserved = match self.max.checked_sub(outputs) {
            Some(r) => r,
            None => return Err(FundingError::InvalidConstraints(ConstraintFault::OutputsExceedBudget)),
        };
        let mut known: u64 = 0;
        let mut missing: Vec<usize> = Vec::new();
        let mut index: usize = 0;
        while index < amounts.len()
            invariant
                index <= amounts@.len(),
                amounts@.len() == self.sequences@.len(),
                constraints_check(self) is Ok,
                self.funding_constraints is Some ==> self.funding_constraints->Some_0.inputs@.len()
                    == amounts@.len(),
                outputs == template_outputs_total(self),
                self.max >= outputs,
                scan_amounts(self.funding_constraints, amounts@, index as int) == Ok::<
                    (int, Seq<usize>),
                    FundingError,
                >((known as int, missing@)),
            decreases amounts@.len() - index,
        {
            match amounts[index] {
                Some(amount) => {
                    match &self.funding_constraints {
                        Some(c) => {
                            if amount < c.inputs[index].minimum {
                                proof {
                                    lemma_scan_err_stays(
                                        self.funding_constraints,
                                        amounts@,
                                        index + 1,
                                        amounts@.len() as int,
                                    );
                                }
                                return Err(
                                    FundingError::UnderfundedInput {
                                        index,
                                        name: c.inputs[index].name.clone(),
                                        available: amount,
                                        required: c.inputs[index].minimum,
                                    },
                                );
                            }
                        },
                        None => {},
                    }
                    known = match known.checked_add(amount) {
                        Some(k) => k,
                        None => {
                            proof {
                                lemma_scan_err_stays(
                                    self.funding_constraints,
                                    amounts@,
                                    index + 1,
                                    amounts@.len() as int,
                                );
                            }
                            return Err(FundingError::Overflow);
                        },
                    };
                },
                None => {
                    missing.push(index);
                },
            }
            index += 1;
        }
        let maximum = match &self.funding_constraints {
            Some(c) => Some(c.maximum_fee),
            None => None,
        };
        match maximum {
            Some(m) => {
                if known >= outputs && known - outputs > m {
                    return Err(FundingError::ExcessiveFee { actual: known - outputs, maximum: m });
                }
            },
            None => {},
        }
        let actual = if missing.len() == 0 {
            if known < self.max {
                return Err(FundingError::InsufficientFunding { available: known, required: self.max });
            }
            Some(known - outputs)
        } else {
            None
        };
        let rate = match &self.funding_constraints {
            Some(c) => c.minimum_feerate,
            None => None,
        };
        Ok(
            FundingReport {
                known_input_sats: known,
                output_sats: outputs,
                reserved_fee_sats: reserved,
                missing_inputs: missing,
                actual_fee_sats: actual,
                maximum_fee_sats: maximum,
                minimum_feerate_sat_kwu: rate,
                observed_weight_wu: None,
                fee_rate_pending: rate.is_some(),
            },
        )
    }
}


/// The fee-rate check at a complete transaction weight: `Ok(true)` when the
/// rate was checked and met, `Ok(false)` when there was nothing to check.
pub open spec fn feerate_check(rate: Option<u64>, fee: Option<u64>, weight: u64) -> Result<
    bool,
    FundingError,
> {
    match (rate, fee) {
        (Some(rate), Some(fee)) => if rate * weight + 999 > u64::MAX {
            Err(FundingError::Overflow)
        } else if fee < (rate * weight + 999) / 1000 {
            Err(
                FundingError::InsufficientFeeRate {
                    fee,
                    required: ((rate * weight + 999) / 1000) as u64,
                    weight_wu: weight,
                },
            )
        } else {
            Ok(true)
        },
        _ => Ok(false),
    }
}

/// Whether a funded transaction fails to match a template's commitment: the
/// template commits at an input other than zero, or the transaction or the
/// template itself does not have the recorded hash there.
pub open spec fn commitment_mismatch(t: &Template, psbt: &FundingEvidence) -> bool {
    ||| t.ctv_index != 0
    ||| ctv_hash(psbt.unsigned_tx@, 0) != t.ctv@
    ||| ctv_hash(template_tx(t), 0) != t.ctv@
}

impl Template {
    /// Check a funded transaction's commitment, funding evidence and retained
    /// local fee rules. The template must commit at input zero, and the
    /// unsigned transaction and the template itself must both have the
    /// recorded hash there.
    ///
    /// A fee-rate requirement remains pending until all final scriptSig and
    /// witness fields are supplied. Witness validity and chain maturity are
    /// separate checks.
    pub fn check_funded_psbt(&self, psbt: &FundingEvidence) -> (r: Result<
        FundingReport,
        FundingError,
    >)
        ensures
            commitment_mismatch(self, psbt) ==> (r matches Err(e) && e
                == FundingError::TransactionMismatch),
            !commitment_mismatch(self, psbt) ==> match funding_check(
                self,
                psbt.prevout_amounts@,
            ) {
                Err(e) => r matches Err(f) && f == e,
                Ok((known, missing, actual)) => match psbt.finalized_weight_wu {
                    None => r matches Ok(rep) && report_matches(self, &rep, known, missing, actual)
                        && rep.observed_weight_wu is None && rep.fee_rate_pending == (feerate_of(
                        self,
                    ) is Some),
                    Some(w) => match feerate_check(feerate_of(self), actual, w) {
                        Err(e) => r matches Err(f) && f == e,
                        Ok(checked) => r matches Ok(rep) && report_matches(
                            self,
                            &rep,
                            known,
                            missing,
                            actual,
                        ) && rep.observed_weight_wu == Some(w) && rep.fee_rate_pending == (
                        feerate_of(self) is Some && !checked),
                    },
                },
            },
    {
        if self.ctv_index != 0 || !same_bytes(&get_ctv_hash(&psbt.unsigned_tx, 0), &self.ctv)
            || !same_bytes(&self.hash(), &self.ctv) {
            return Err(FundingError::TransactionMismatch);
        }
        let mut report = match self.check_funding_amounts(psbt.prevout_amounts.as_slice()) {
            Ok(rep) => rep,
            Err(e) => return Err(e),
        };
        match psbt.finalized_weight_wu {
            None => Ok(report),
            Some(weight) => {
                report.observed_weight_wu = Some(weight);
                match (report.minimum_feerate_sat_kwu, report.actual_fee_sats) {
                    (Some(rate), Some(fee)) => {
                        let required = match fee_for_weight(rate, weight) {
                            Some(x) => x,
                            None => return Err(FundingError::Overflow),
                        };
                        if fee < required {
                            return Err(
                                FundingError::InsufficientFeeRate { fee, required, weight_wu: weight },
                            );
                        }
                        report.fee_rate_pending = false;
                        Ok(report)
                    },
                    _ => Ok(report),
                }
            },
        }
    }

    /// Recompute the total amount sent by this template's outputs.
    pub fn total_amount(&self) -> (r: u64)
        requires
            template_outputs_total(self) <= u64::MAX,
        ensures
            r == template_outputs_total(self),
    {
        match self.checked_output_total() {
            Ok(t) => t,
            Err(_) => 0,
        }
    }
}

impl TemplateMetadata {
    /// Empty annotations.
    pub fn new() -> (r: Self)
        ensures
            r.label is None,
            r.color is None,
    {
        TemplateMetadata { label: None, color: None }
    }

    /// Whether there is nothing worth serializing.
    pub fn skip_serializing(&self) -> (r: bool)
        ensures
            r == (self.label is None && self.color is None),
    {
        self.label.is_none() && self.color.is_none()
    }

    /// Set the color; a color already set is not overwritten.
    pub fn set_color(self, i: String) -> (r: Result<Self, CompilationError>)
        ensures
            self.color is Some ==> (r matches Err(e) && e matches CompilationError::OverwriteMetadata(
                f,
            ) && f@ == "color"@),
            self.color is None ==> (r matches Ok(m) && m.color == Some(i) && m.label == self.label),
    {
        if self.color.is_some() {
            proof {
                reveal_strlit("color");
            }
            return Err(CompilationError::OverwriteMetadata("color".to_string()));
        }
        let mut m = self;
        m.color = Some(i);
        Ok(m)
    }

    /// Set the label; a label already set is not overwritten.
    pub fn set_label(self, i: String) -> (r: Result<Self, CompilationError>)
        ensures
            self.label is Some ==> (r matches Err(e) && e matches CompilationError::OverwriteMetadata(
                f,
            ) && f@ == "label"@),
            self.label is None ==> (r matches Ok(m) && m.label == Some(i) && m.color == self.color),
    {
        if self.label.is_some() {
            proof {
                reveal_strlit("label");
            }
            return Err(CompilationError::OverwriteMetadata("label".to_string()));
        }
        let mut m = self;
        m.label = Some(i);
        Ok(m)
    }
}


/// A transaction input and any declared funding role.
#[derive(Debug)]
pub struct InputExplanation {
    /// Transaction input index.
    pub index: usize,
    /// Name supplied by a declarative transaction plan, if present.
    pub name: Option<String>,
    /// Required contribution, unknown for unannotated auxiliary input slots.
    pub minimum_sats: Option<u64>,
    /// Consensus sequence value, including relative-lock flags and units.
    pub sequence: u32,
}

/// What the explanation of input `i` of `t` holds.
pub open spec fn explains_input(t: &Template, i: int, e: InputExplanation) -> bool {
    &&& e.index == i
    &&& e.sequence == t.sequences@[i]
    &&& match t.funding_constraints {
        Some(c) => e.name == Some(c.inputs@[i].name) && e.minimum_sats == Some(
            c.inputs@[i].minimum,
        ),
        None => e.name is None && e.minimum_sats == (if i == 0 {
            Some(t.required_input_amount)
        } else {
            None
        }),
    }
}

impl Template {
    /// Explain each input in committed order: the funding role a plan
    /// declared for it, or for input zero of an unplanned template the
    /// contract's required amount; and its sequence.
    pub fn explain_inputs(&self) -> (r: Vec<InputExplanation>)
        requires
            constraints_check(self) is Ok,
        ensures
            r@.len() == self.sequences@.len(),
            forall|i: int| 0 <= i < r@.len() ==> explains_input(self, i, #[trigger] r@[i]),
    {
        let mut r: Vec<InputExplanation> = Vec::new();
        let mut i: usize = 0;
        while i < self.sequences.len()
            invariant
                i <= self.sequences@.len(),
                constraints_check(self) is Ok,
                r@.len() == i,
                forall|k: int| 0 <= k < i ==> explains_input(self, k, #[trigger] r@[k]),
            decreases self.sequences@.len() - i,
        {
            let (name, minimum_sats) = match &self.funding_constraints {
                Some(c) => (Some(c.inputs[i].name.clone()), Some(c.inputs[i].minimum)),
                None => (None, if i == 0 {
                    Some(self.required_input_amount)
                } else {
                    None
                }),
            };
            r.push(InputExplanation { index: i, name, minimum_sats, sequence: self.sequences[i] });
            i += 1;
        }
        r
    }
}


/// Each input funded with exactly its declared minimum.
pub open spec fn minimum_amounts(s: Seq<InputRequirement>) -> Seq<Option<u64>> {
    s.map_values(|i: InputRequirement| Some(i.minimum))
}

proof fn lemma_scan_minimums(c: FundingConstraints, k: int)
    requires
        0 <= k <= c.inputs@.len(),
        minimums_total(c.inputs@) <= u64::MAX,
    ensures
        scan_amounts(Some(c), minimum_amounts(c.inputs@), k) == Ok::<(int, Seq<usize>), FundingError>(
            (minimums_total(c.inputs@.take(k)), Seq::empty()),
        ),
    decreases k,
{
    if k > 0 {
        lemma_scan_minimums(c, k - 1);
        lemma_minimums_prefix(c.inputs@, k);
        assert(c.inputs@.take(k).drop_last() =~= c.inputs@.take(k - 1));
    } else {
        assert(c.inputs@.take(0) =~= Seq::<InputRequirement>::empty());
    }
}

/// Funding every input of a template with exactly its declared minimum is
/// accepted: nothing is missing, the known input total is the template's
/// budget, and the fee is the reserved fee.
pub proof fn lemma_minimum_funding_accepted(t: Template)
    requires
        constraints_check(&t) is Ok,
        t.funding_constraints is Some,
    ensures
        funding_check(&t, minimum_amounts(t.funding_constraints->Some_0.inputs@)) == Ok::<
            (int, Seq<usize>, Option<u64>),
            FundingError,
        >((t.max as int, Seq::empty(), Some((t.max - template_outputs_total(&t)) as u64))),
{
    let c = t.funding_constraints->Some_0;
    lemma_scan_minimums(c, c.inputs@.len() as int);
    assert(c.inputs@.take(c.inputs@.len() as int) =~= c.inputs@);
}


/// The unsigned transaction a template describes: one input per sequence,
/// with an empty signature script, and its outputs in order.
pub open spec fn template_tx(t: &Template) -> TxView {
    TxView {
        version: t.version,
        lock_time: t.lock_time,
        inputs: t.sequences@.map_values(|s: u32| (s, Seq::<u8>::empty())),
        outputs: t.outputs@.map_values(|o: Output| (o.amount, o.contract.script_pubkey@)),
    }
}

impl Template {
    /// The unsigned transaction this template describes.
    pub fn transaction(&self) -> (r: Transaction)
        ensures
            r@ == template_tx(self),
    {
        let mut input: Vec<TxIn> = Vec::new();
        let mut i: usize = 0;
        while i < self.sequences.len()
            invariant
                i <= self.sequences@.len(),
                input@.map_values(|x: TxIn| (x.sequence, x.script_sig@)) == self.sequences@.take(
                    i as int,
                ).map_values(|s: u32| (s, Seq::<u8>::empty())),
            decreases self.sequences@.len() - i,
        {
            let ghost prev = input@;
            let item = TxIn { sequence: self.sequences[i], script_sig: Vec::new() };
            assert(item.script_sig@ =~= Seq::<u8>::empty());
            input.push(item);
            assert(input@ == prev.push(item));
            assert(input@.map_values(|x: TxIn| (x.sequence, x.script_sig@)) =~= prev.map_values(
                |x: TxIn| (x.sequence, x.script_sig@),
            ).push((self.sequences@[i as int], Seq::<u8>::empty())));
            assert(self.sequences@.take(i + 1) =~= self.sequences@.take(i as int).push(
                self.sequences@[i as int],
            ));
            assert(input@.map_values(|x: TxIn| (x.sequence, x.script_sig@)) =~= self.sequences@.take(
                i + 1,
            ).map_values(|s: u32| (s, Seq::<u8>::empty())));
            i += 1;
        }
        assert(self.sequences@.take(i as int) =~= self.sequences@);
        let mut output: Vec<TxOut> = Vec::new();
        let mut j: usize = 0;
        while j < self.outputs.len()
            invariant
                j <= self.outputs@.len(),
                output@.map_values(|x: TxOut| (x.value, x.script_pubkey@)) == self.outputs@.take(
                    j as int,
                ).map_values(|o: Output| (o.amount, o.contract.script_pubkey@)),
            decreases self.outputs@.len() - j,
        {
            let ghost prev = output@;
            let item = TxOut {
                value: self.outputs[j].amount,
                script_pubkey: copy_bytes(&self.outputs[j].contract.script_pubkey),
            };
            output.push(item);
            assert(output@ == prev.push(item));
            assert(output@.map_values(|x: TxOut| (x.value, x.script_pubkey@)) =~= prev.map_values(
                |x: TxOut| (x.value, x.script_pubkey@),
            ).push((self.outputs@[j as int].amount, self.outputs@[j as int].contract.script_pubkey@)));
            assert(self.outputs@.take(j + 1) =~= self.outputs@.take(j as int).push(
                self.outputs@[j as int],
            ));
            assert(output@.map_values(|x: TxOut| (x.value, x.script_pubkey@)) =~= self.outputs@.take(
                j + 1,
            ).map_values(|o: Output| (o.amount, o.contract.script_pubkey@)));
            j += 1;
        }
        assert(self.outputs@.take(j as int) =~= self.outputs@);
        Transaction { version: self.version, lock_time: self.lock_time, input, output }
    }

    /// The template hash a covenant commits to: the BIP-119 default template
    /// hash of this template's transaction at input zero.
    pub fn hash(&self) -> (r: Vec<u8>)
        ensures
            r@ == ctv_hash(template_tx(self), 0),
    {
        get_ctv_hash(&self.transaction(), 0)
    }
}

/// A copy of a byte string.
pub(crate) fn copy_bytes(b: &Vec<u8>) -> (r: Vec<u8>)
    ensures
        r@ == b@,
{
    let mut r: Vec<u8> = Vec::new();
    let mut i: usize = 0;
    while i < b.len()
        invariant
            i <= b@.len(),
            r@ == b@.take(i as int),
        decreases b@.len() - i,
    {
        r.push(b[i]);
        assert(r@ =~= b@.take(i + 1));
        i += 1;
    }
    assert(b@.take(i as int) =~= b@);
    r
}

/// What a PSBT records about the output one of its inputs spends.
#[derive(Debug)]
pub struct PrevoutEvidence {
    /// The value of the witness UTXO record, when the PSBT has one.
    pub witness_value: Option<u64>,
    /// The previous transaction record, when the PSBT has one: whether its
    /// transaction id is the spent outpoint's, and its output values.
    pub previous: Option<(bool, Vec<u64>)>,
    /// The index of the spent output.
    pub vout: u32,
}

/// The value an input spends, as its evidence shows it: the witness UTXO
/// record first; otherwise the spent output of the previous transaction,
/// when that transaction is the one the input names and has that output;
/// unknown otherwise.
pub open spec fn prevout_value_spec(e: &PrevoutEvidence) -> Option<u64> {
    match e.witness_value {
        Some(v) => Some(v),
        None => match e.previous {
            Some((matches, outs)) => if matches && (e.vout as int) < outs@.len() {
                Some(outs@[e.vout as int])
            } else {
                None
            },
            None => None,
        },
    }
}

/// The value each input spends, as its evidence shows it.
pub fn prevout_values(es: &Vec<PrevoutEvidence>) -> (r: Vec<Option<u64>>)
    ensures
        r@.len() == es@.len(),
        forall|i: int| 0 <= i < es@.len() ==> r@[i] == prevout_value_spec(#[trigger] &es@[i]),
{
    let mut r: Vec<Option<u64>> = Vec::new();
    let mut i: usize = 0;
    while i < es.len()
        invariant
            i <= es@.len(),
            r@.len() == i,
            forall|k: int| 0 <= k < i ==> r@[k] == prevout_value_spec(#[trigger] &es@[k]),
        decreases es@.len() - i,
    {
        let e = &es[i];
        let v = match e.witness_value {
            Some(v) => Some(v),
            None => match &e.previous {
                Some((matches, outs)) => if *matches && (e.vout as usize) < outs.len() {
                    Some(outs[e.vout as usize])
                } else {
                    None
                },
                None => None,
            },
        };
        r.push(v);
        i += 1;
    }
    r
}

} // verus!
