//! Ordered transaction declarations resolved before covenant commitment.
//!
//! A plan allocates a supplied budget; it does not infer the behavior of a
//! child contract by compiling it repeatedly. Funding and fee constraints are
//! local spending requirements, not predicates enforced by Bitcoin Script.
use vstd::prelude::*;
use crate::builder::{
    Builder, BuilderView, Compilable, Compiled, OutputView, builder_conserves, compiled_child,
    output_views, outputs_total,
};
use crate::context::{Context, ContextView, FragmentView};
use crate::error::CompilationError;
use crate::ordinals::{Ordinal, OrdinalsInfo, lemma_position_nonneg, position_in, ranges_valid, total_spec};
use crate::feasibility::ctv_hash;
use crate::template::{
    ConstraintFault, FundingConstraints, FundingError, InputRequirement, Template,
    TemplateMetadata, constraints_check, funding_check, lemma_minimum_funding_accepted,
    lock_time_value, minimum_amounts, minimums_total, names_valid, requirement_names,
    sequence_value, string_views, template_outputs_total, template_tx,
};
use crate::timelocks::{
    AnyAbsTimeLock, AnyRelTimeLock, abs_encoding, abs_max, rel_encoding, rel_max, same_abs_domain,
    same_rel_domain,
};

verus! {

/// Reference to a named input in a plan.
#[derive(Debug, Clone)]
pub struct InputRef(String);

impl View for InputRef {
    type V = Seq<char>;

    closed spec fn view(&self) -> Seq<char> {
        self.0@
    }
}

impl InputRef {
    /// The declared input name.
    pub fn name(&self) -> (r: &str)
        ensures
            r@ == self@,
    {
        self.0.as_str()
    }
}

/// Reference to a named output in a plan.
#[derive(Debug, Clone)]
pub struct OutputRef(String);

impl View for OutputRef {
    type V = Seq<char>;

    closed spec fn view(&self) -> Seq<char> {
        self.0@
    }
}

impl OutputRef {
    /// The declared output name.
    pub fn name(&self) -> (r: &str)
        ensures
            r@ == self@,
    {
        self.0.as_str()
    }
}

/// Amount assigned to an output before its child is compiled.
#[derive(Debug, Clone, Copy, PartialEq, Eq, Structural)]
pub enum OutputAmount {
    /// Allocate this exact amount.
    Exact(u64),
    /// Allocate the budget remaining after exact outputs and reserved fees.
    /// Only one output may receive the remainder.
    Remainder,
}

/// Treatment of funds beyond declared outputs and reserved fees.
#[derive(Debug, Clone, Copy, PartialEq, Eq, Structural)]
pub enum Surplus {
    /// Require the planned budget to be allocated exactly and reject any
    /// increase in actual fees when the transaction is funded.
    Reject,
    /// Permit unallocated funds to become fees up to this absolute ceiling.
    Fees {
        /// Maximum total fee, including the explicit reservation.
        maximum: u64,
    },
}

impl Default for Surplus {
    fn default() -> (r: Self)
        ensures
            r == Surplus::Reject,
    {
        Surplus::Reject
    }
}

/// Whether a duplicate names an input or an output.
#[derive(Debug, Clone, Copy, PartialEq, Eq, Structural)]
pub enum NameKind {
    /// A transaction input.
    Input,
    /// A transaction output.
    Output,
}

/// The declaration a plan error is about.
#[derive(Debug, Clone)]
pub enum PlanSite {
    /// The ordinal ranges of the contract input.
    ContractOrdinals,
    /// A named input.
    Input(String),
    /// A named output.
    Output(String),
    /// The transaction's absolute lock.
    TransactionLock,
    /// Funding from auxiliary inputs.
    AuxiliaryFunding,
    /// The fee reservation.
    Fees,
}

/// A declaration that cannot be resolved into a checked transaction template.
#[derive(Debug)]
pub enum PlanError {
    /// A Bitcoin transaction must declare at least one output.
    NoOutputs,
    /// Resolved funding rules are already inconsistent with the transaction.
    Funding(FundingError),
    /// Input and output names must be nonempty.
    EmptyName,
    /// Two inputs or two outputs have the same name.
    DuplicateName {
        /// Whether the duplicate names an input or an output.
        kind: NameKind,
        /// Repeated name.
        name: String,
    },
    /// A reference does not identify an input in this plan.
    UnknownInput(String),
    /// A reference does not identify an output in this plan.
    UnknownOutput(String),
    /// Two outputs request the same residual budget.
    MultipleRemainders {
        /// Previously declared remainder output.
        first: String,
        /// Rejected additional remainder output.
        second: String,
    },
    /// A sum exceeds the representable satoshi range.
    AmountOverflow {
        /// The declaration whose amount could not be accumulated.
        at: PlanSite,
    },
    /// Exact outputs and reserved fees exceed the declared input budget.
    InsufficientFunds {
        /// Sum of the declared input contributions.
        available: u64,
        /// Sum of all exact output amounts.
        outputs: u64,
        /// Required fee reservation.
        fees: u64,
    },
    /// Some planned funds have no output or explicit fee destination.
    UnallocatedFunds {
        /// Amount requiring a remainder output or an explicit surplus policy.
        amount: u64,
    },
    /// The resolved fee is greater than the declared ceiling.
    FeeLimit {
        /// Fee required by the plan.
        fee: u64,
        /// Greatest permitted fee.
        maximum: u64,
    },
    /// Relative lock constraints refer to different time domains.
    ConflictingRelativeLocks {
        /// Input with incompatible requirements.
        input: String,
        /// Existing encoded sequence requirement.
        existing: u32,
        /// Rejected encoded sequence requirement.
        requested: u32,
    },
    /// Absolute lock constraints refer to different time domains.
    ConflictingAbsoluteLocks {
        /// Existing encoded lock-time requirement.
        existing: u32,
        /// Rejected encoded lock-time requirement.
        requested: u32,
    },
    /// A child would require a mixture of tracked and unknown ordinal ranges.
    UnknownOrdinalAllocation {
        /// Output requiring the unsupported allocation, or the fees.
        at: PlanSite,
        /// Known input sats that must be allocated first.
        tracked_remaining: u64,
    },
    /// Tracked ordinal ranges do not describe the contract input's full budget.
    OrdinalFunding {
        /// Contract input budget.
        available: u64,
        /// Total sats described by the supplied ranges.
        in_ranges: u64,
    },
    /// The supplied input ranges do not establish this ordinal's position.
    UnknownOrdinal {
        /// Output whose placement cannot be verified.
        output: String,
        /// Requested ordinal identity.
        ordinal: Ordinal,
    },
    /// An ordinal's declared offset is outside the output's allocated amount.
    InvalidOrdinalOffset {
        /// Output containing the invalid offset declaration.
        output: String,
        /// Requested zero-based satoshi offset.
        offset: u64,
        /// Output allocation.
        amount: u64,
    },
    /// Ordered allocation does not put the ordinal at its declared position.
    OrdinalPlacement {
        /// Output whose placement requirement was violated.
        output: String,
        /// Requested ordinal identity.
        ordinal: Ordinal,
        /// Required zero-based output offset.
        required: u64,
        /// Actual offset, or `None` when the ordinal is outside this output.
        actual: Option<u64>,
    },
    /// The checked builder or a child contract rejected the plan.
    Compilation {
        /// Declaration being lowered.
        at: PlanSite,
        /// Underlying checked compilation error.
        source: CompilationError,
    },
}

struct PlannedInput {
    requirement: InputRequirement,
    sequence: Option<AnyRelTimeLock>,
}

struct PlannedOutput<'a, C: ?Sized> {
    name: String,
    amount: OutputAmount,
    contract: &'a C,
    ordinals: Vec<(Ordinal, u64)>,
}

/// A planned input as values.
pub struct InputPlanView {
    pub name: String,
    pub minimum: u64,
    pub sequence: Option<AnyRelTimeLock>,
}

/// A planned output as values; the child contract is not part of it.
pub struct OutputPlanView {
    pub name: String,
    pub amount: OutputAmount,
    pub ordinals: Seq<(Ordinal, u64)>,
}

/// A plan as values.
pub struct PlanView {
    pub ctx: ContextView,
    pub inputs: Seq<InputPlanView>,
    pub outputs: Seq<OutputPlanView>,
    pub reserved_fees: u64,
    pub surplus: Surplus,
    pub lock_time: Option<AnyAbsTimeLock>,
    pub minimum_feerate: Option<u64>,
    pub label: Option<Seq<char>>,
    pub color: Option<Seq<char>>,
}

/// A finite, ordered transaction plan with explicit funding and fee intent.
///
/// `C` is the type of the child contracts; `dyn Compilable` admits children
/// of different types.
///
/// Exact amounts and a single remainder are resolved before compiling
/// children. Neither output ordering nor child amounts are inferred by
/// searching arbitrary contract code. A child that cannot accept its
/// allocation produces a named error. The supplied context funds are the
/// contract input's minimum.
pub struct TemplatePlan<'a, C: ?Sized> {
    ctx: Context,
    inputs: Vec<PlannedInput>,
    outputs: Vec<PlannedOutput<'a, C>>,
    reserved_fees: u64,
    surplus: Surplus,
    lock_time: Option<AnyAbsTimeLock>,
    minimum_feerate: Option<u64>,
    metadata: TemplateMetadata,
}

spec fn input_view(i: PlannedInput) -> InputPlanView {
    InputPlanView { name: i.requirement.name, minimum: i.requirement.minimum, sequence: i.sequence }
}

spec fn output_view<'a, C: ?Sized>(o: PlannedOutput<'a, C>) -> OutputPlanView {
    OutputPlanView { name: o.name, amount: o.amount, ordinals: o.ordinals@ }
}

/// The view of an optional string.
pub open spec fn opt_chars(s: Option<String>) -> Option<Seq<char>> {
    match s {
        Some(t) => Some(t@),
        None => None,
    }
}

impl<'a, C: ?Sized> View for TemplatePlan<'a, C> {
    type V = PlanView;

    closed spec fn view(&self) -> PlanView {
        PlanView {
            ctx: self.ctx@,
            inputs: self.inputs@.map_values(|i: PlannedInput| input_view(i)),
            outputs: self.outputs@.map_values(|o: PlannedOutput<'a, C>| output_view(o)),
            reserved_fees: self.reserved_fees,
            surplus: self.surplus,
            lock_time: self.lock_time,
            minimum_feerate: self.minimum_feerate,
            label: opt_chars(self.metadata.label),
            color: opt_chars(self.metadata.color),
        }
    }
}

/// Names of planned inputs.
pub open spec fn input_names(s: Seq<InputPlanView>) -> Seq<Seq<char>> {
    s.map_values(|i: InputPlanView| i.name@)
}

/// Names of planned outputs.
pub open spec fn output_names(s: Seq<OutputPlanView>) -> Seq<Seq<char>> {
    s.map_values(|o: OutputPlanView| o.name@)
}

/// Every name is nonempty and none occurs twice.
pub open spec fn distinct_names(s: Seq<Seq<char>>) -> bool {
    &&& forall|i: int| 0 <= i < s.len() ==> #[trigger] s[i].len() > 0
    &&& forall|i: int, j: int| 0 <= i < j < s.len() ==> s[i] != s[j]
}

/// The plan's lasting invariant: input zero is the contract input, whose
/// minimum is the context's funds; names are nonempty and unique within
/// inputs and within outputs; at most one output takes the remainder.
pub open spec fn plan_wf(v: PlanView) -> bool {
    &&& v.inputs.len() >= 1
    &&& v.inputs[0].minimum == v.ctx.funds
    &&& distinct_names(input_names(v.inputs))
    &&& distinct_names(output_names(v.outputs))
    &&& forall|i: int, j: int|
        0 <= i < j < v.outputs.len() ==> !(#[trigger] v.outputs[i].amount is Remainder
            && #[trigger] v.outputs[j].amount is Remainder)
}

/// How a plan's budget resolves.
#[derive(Debug, Clone, Copy)]
pub struct Resolution {
    /// Sum of all declared input minimums.
    pub budget: u64,
    /// Sum of all exact output amounts.
    pub exact: u64,
    /// What is left for the remainder output, after exact outputs and fees.
    pub remainder: u64,
    /// The fee the transaction pays.
    pub fees: u64,
    /// The fee cap retained for funding.
    pub maximum_fee: u64,
    /// The part of the budget that auxiliary inputs supply.
    pub external: u64,
}

/// Running sum of the first `k` input minimums, failing at the first input
/// whose minimum overflows it.
pub open spec fn budget_fold(s: Seq<InputPlanView>, k: int) -> Result<u64, PlanError>
    decreases k,
{
    if k <= 0 {
        Ok(0)
    } else {
        match budget_fold(s, k - 1) {
            Err(e) => Err(e),
            Ok(sum) => if sum + s[k - 1].minimum > u64::MAX {
                Err(PlanError::AmountOverflow { at: PlanSite::Input(s[k - 1].name) })
            } else {
                Ok((sum + s[k - 1].minimum) as u64)
            },
        }
    }
}

/// Running sum of the first `k` exact output amounts, failing at the first
/// output whose amount overflows it.
pub open spec fn exact_fold(s: Seq<OutputPlanView>, k: int) -> Result<u64, PlanError>
    decreases k,
{
    if k <= 0 {
        Ok(0)
    } else {
        match exact_fold(s, k - 1) {
            Err(e) => Err(e),
            Ok(sum) => match s[k - 1].amount {
                OutputAmount::Remainder => Ok(sum),
                OutputAmount::Exact(a) => if sum + a > u64::MAX {
                    Err(PlanError::AmountOverflow { at: PlanSite::Output(s[k - 1].name) })
                } else {
                    Ok((sum + a) as u64)
                },
            },
        }
    }
}

/// Some output takes the remainder.
pub open spec fn has_remainder(s: Seq<OutputPlanView>) -> bool {
    exists|i: int| 0 <= i < s.len() && #[trigger] s[i].amount == OutputAmount::Remainder
}

/// The amount an output receives.
pub open spec fn resolved_amount(o: OutputPlanView, remainder: u64) -> u64 {
    match o.amount {
        OutputAmount::Exact(a) => a,
        OutputAmount::Remainder => remainder,
    }
}

/// Sum of the amounts the first `k` outputs receive.
pub open spec fn amounts_before(s: Seq<OutputPlanView>, remainder: u64, k: int) -> int
    decreases k,
{
    if k <= 0 {
        0
    } else {
        amounts_before(s, remainder, k - 1) + resolved_amount(s[k - 1], remainder)
    }
}

/// The input position of an ordinal, where ranges are known and hold it.
pub open spec fn ordinal_position(ranges: Option<Seq<(u64, u64)>>, o: Ordinal) -> Option<int> {
    match ranges {
        Some(r) => position_in(r, o.0),
        None => None,
    }
}

/// Check one ordinal requirement of an output that receives `amount` sats
/// starting at transaction position `start`.
pub open spec fn ordinal_check(
    ranges: Option<Seq<(u64, u64)>>,
    name: String,
    amount: u64,
    start: int,
    req: (Ordinal, u64),
) -> Result<(), PlanError> {
    let (ordinal, offset) = req;
    if offset >= amount {
        Err(PlanError::InvalidOrdinalOffset { output: name, offset, amount })
    } else {
        match ordinal_position(ranges, ordinal) {
            None => Err(PlanError::UnknownOrdinal { output: name, ordinal }),
            Some(p) => {
                let actual = if p >= start && p - start < amount {
                    Some((p - start) as u64)
                } else {
                    None
                };
                if actual != Some(offset) {
                    Err(
                        PlanError::OrdinalPlacement {
                            output: name,
                            ordinal,
                            required: offset,
                            actual,
                        },
                    )
                } else {
                    Ok(())
                }
            },
        }
    }
}

/// Check the first `j` ordinal requirements of an output, stopping at the
/// first that fails.
pub open spec fn output_ordinals_check(
    ranges: Option<Seq<(u64, u64)>>,
    o: OutputPlanView,
    amount: u64,
    start: int,
    j: int,
) -> Result<(), PlanError>
    decreases j,
{
    if j <= 0 {
        Ok(())
    } else {
        match output_ordinals_check(ranges, o, amount, start, j - 1) {
            Err(e) => Err(e),
            Ok(_) => ordinal_check(ranges, o.name, amount, start, o.ordinals[j - 1]),
        }
    }
}

/// Check the ordinal requirements of the first `k` outputs in order.
pub open spec fn placements_check(
    ranges: Option<Seq<(u64, u64)>>,
    s: Seq<OutputPlanView>,
    remainder: u64,
    k: int,
) -> Result<(), PlanError>
    decreases k,
{
    if k <= 0 {
        Ok(())
    } else {
        match placements_check(ranges, s, remainder, k - 1) {
            Err(e) => Err(e),
            Ok(_) => output_ordinals_check(
                ranges,
                s[k - 1],
                resolved_amount(s[k - 1], remainder),
                amounts_before(s, remainder, k - 1),
                s[k - 1].ordinals.len() as int,
            ),
        }
    }
}

/// The resolution, once fees and their cap are decided, subject to the
/// ordinal placements.
pub open spec fn settle(
    v: PlanView,
    budget: u64,
    exact: u64,
    remainder: u64,
    fees: u64,
    maximum_fee: u64,
) -> Result<Resolution, PlanError> {
    match placements_check(v.ctx.ordinals, v.outputs, remainder, v.outputs.len() as int) {
        Err(e) => Err(e),
        Ok(_) => Ok(
            Resolution {
                budget,
                exact,
                remainder,
                fees,
                maximum_fee,
                external: (budget - v.inputs[0].minimum) as u64,
            },
        ),
    }
}

/// How a plan's budget, fees and ordinal placements resolve, check by check
/// in order, before any child is compiled.
pub open spec fn resolve(v: PlanView) -> Result<Resolution, PlanError> {
    if v.outputs.len() == 0 {
        Err(PlanError::NoOutputs)
    } else if v.ctx.ordinals is Some && total_spec(v.ctx.ordinals->Some_0) is Err {
        Err(
            PlanError::Compilation {
                at: PlanSite::ContractOrdinals,
                source: CompilationError::OrdinalsError(
                    total_spec(v.ctx.ordinals->Some_0)->Err_0,
                ),
            },
        )
    } else if v.ctx.ordinals is Some && total_spec(v.ctx.ordinals->Some_0)->Ok_0 != v.ctx.funds {
        Err(
            PlanError::OrdinalFunding {
                available: v.ctx.funds,
                in_ranges: total_spec(v.ctx.ordinals->Some_0)->Ok_0 as u64,
            },
        )
    } else {
        match budget_fold(v.inputs, v.inputs.len() as int) {
            Err(e) => Err(e),
            Ok(budget) => match exact_fold(v.outputs, v.outputs.len() as int) {
                Err(e) => Err(e),
                Ok(exact) => if budget < exact + v.reserved_fees {
                    Err(
                        PlanError::InsufficientFunds {
                            available: budget,
                            outputs: exact,
                            fees: v.reserved_fees,
                        },
                    )
                } else {
                    let remainder = (budget - exact - v.reserved_fees) as u64;
                    match v.surplus {
                        Surplus::Reject => if !has_remainder(v.outputs) && remainder != 0 {
                            Err(PlanError::UnallocatedFunds { amount: remainder })
                        } else {
                            settle(v, budget, exact, remainder, v.reserved_fees, v.reserved_fees)
                        },
                        Surplus::Fees { maximum } => {
                            let fees = if has_remainder(v.outputs) {
                                v.reserved_fees
                            } else {
                                (budget - exact) as u64
                            };
                            if fees > maximum {
                                Err(PlanError::FeeLimit { fee: fees, maximum })
                            } else {
                                settle(v, budget, exact, remainder, fees, maximum)
                            }
                        },
                    }
                },
            },
        }
    }
}


impl<'a, C: Compilable + ?Sized> TemplatePlan<'a, C> {
    /// Reserve at least this many satoshis for fees; repeated requests take
    /// the maximum.
    pub fn reserve_fees(&mut self, minimum: u64) -> (r: &mut Self)
        ensures
            (*r).contracts() == old(self).contracts(),
            *final(self) == *final(r),
            (*r)@ == (PlanView {
                reserved_fees: if old(self)@.reserved_fees < minimum {
                    minimum
                } else {
                    old(self)@.reserved_fees
                },
                ..old(self)@
            }),
    {
        if self.reserved_fees < minimum {
            self.reserved_fees = minimum;
        }
        self
    }
}



/// The index of the first input with this name.
fn find_input(inputs: &Vec<PlannedInput>, name: &String) -> (r: Option<usize>)
    ensures
        r matches Some(i) ==> i < inputs@.len() && inputs@[i as int].requirement.name@ == name@
            && forall|k: int| 0 <= k < i ==> #[trigger] inputs@[k].requirement.name@ != name@,
        r is None ==> forall|k: int|
            0 <= k < inputs@.len() ==> #[trigger] inputs@[k].requirement.name@ != name@,
{
    let mut i: usize = 0;
    while i < inputs.len()
        invariant
            i <= inputs@.len(),
            forall|k: int| 0 <= k < i ==> #[trigger] inputs@[k].requirement.name@ != name@,
        decreases inputs@.len() - i,
    {
        if inputs[i].requirement.name == *name {
            return Some(i);
        }
        i += 1;
    }
    None
}

/// The index of the first output with this name.
fn find_output<'a, C: ?Sized>(outputs: &Vec<PlannedOutput<'a, C>>, name: &String) -> (r: Option<usize>)
    ensures
        r matches Some(i) ==> i < outputs@.len() && outputs@[i as int].name@ == name@ && forall|
            k: int,
        | 0 <= k < i ==> #[trigger] outputs@[k].name@ != name@,
        r is None ==> forall|k: int| 0 <= k < outputs@.len() ==> #[trigger] outputs@[k].name@ != name@,
{
    let mut i: usize = 0;
    while i < outputs.len()
        invariant
            i <= outputs@.len(),
            forall|k: int| 0 <= k < i ==> #[trigger] outputs@[k].name@ != name@,
        decreases outputs@.len() - i,
    {
        if outputs[i].name == *name {
            return Some(i);
        }
        i += 1;
    }
    None
}

impl<'a, C: Compilable + ?Sized> TemplatePlan<'a, C> {
    /// Start a plan whose input zero is named `contract` and must supply the
    /// context's funds.
    pub fn new(ctx: Context) -> (r: Self)
        ensures
            r.contracts() == Seq::<&'a C>::empty(),
            plan_wf(r@),
            r@.ctx == ctx@,
            r@.inputs.len() == 1,
            r@.inputs[0].name@ == "contract"@,
            r@.inputs[0].minimum == ctx@.funds,
            r@.inputs[0].sequence is None,
            r@.outputs.len() == 0,
            r@.reserved_fees == 0,
            r@.surplus == Surplus::Reject,
            r@.lock_time is None,
            r@.minimum_feerate is None,
            r@.label is None,
            r@.color is None,
    {
        proof {
            reveal_strlit("contract");
        }
        let minimum = ctx.funds();
        let mut inputs: Vec<PlannedInput> = Vec::new();
        inputs.push(
            PlannedInput {
                requirement: InputRequirement { name: "contract".to_string(), minimum },
                sequence: None,
            },
        );
        let r = TemplatePlan {
            ctx,
            inputs,
            outputs: Vec::new(),
            reserved_fees: 0,
            surplus: Surplus::Reject,
            lock_time: None,
            minimum_feerate: None,
            metadata: TemplateMetadata::new(),
        };
        assert(r@.inputs[0].name@ == "contract"@);
        r
    }

    /// Reference to the contract input at transaction index zero.
    pub fn contract_input(&self) -> (r: InputRef)
        requires
            plan_wf(self@),
        ensures
            r@ == self@.inputs[0].name@,
    {
        assert(self@.inputs[0] == input_view(self.inputs@[0]));
        InputRef(self.inputs[0].requirement.name.clone())
    }

    /// Append an auxiliary input with a minimum contribution. A zero minimum
    /// declares a sponsor slot without inventing its funding.
    pub fn input(&mut self, name: String, minimum: u64) -> (r: Result<InputRef, PlanError>)
        requires
            plan_wf(old(self)@),
        ensures
            final(self).contracts() == old(self).contracts(),
            plan_wf(final(self)@),
            name@.len() == 0 ==> (r matches Err(e) && e is EmptyName),
            name@.len() > 0 && input_names(old(self)@.inputs).contains(name@) ==> (r matches Err(e)
                && e == PlanError::DuplicateName { kind: NameKind::Input, name }),
            r is Err ==> final(self)@ == old(self)@,
            name@.len() > 0 && !input_names(old(self)@.inputs).contains(name@) ==> (r matches Ok(
                i,
            ) && i@ == name@ && final(self)@ == (PlanView {
                inputs: old(self)@.inputs.push(InputPlanView { name, minimum, sequence: None }),
                ..old(self)@
            })),
    {
        if name.as_str().is_empty() {
            return Err(PlanError::EmptyName);
        }
        match find_input(&self.inputs, &name) {
            Some(i) => {
                assert(input_names(self@.inputs)[i as int] == name@);
                return Err(PlanError::DuplicateName { kind: NameKind::Input, name });
            },
            None => {},
        }
        proof {
            if input_names(self@.inputs).contains(name@) {
                let k = choose|k: int| 0 <= k < input_names(self@.inputs).len() && input_names(self@.inputs)[k] == name@;
                assert(self.inputs@[k].requirement.name@ == name@);
            }
        }
        let ghost before = self@;
        let reference = InputRef(name.clone());
        self.inputs.push(PlannedInput { requirement: InputRequirement { name, minimum }, sequence: None });
        assert(self@.inputs =~= before.inputs.push(InputPlanView { name: name, minimum, sequence: None }));
        assert(input_names(self@.inputs) =~= input_names(before.inputs).push(name@));
        assert(!input_names(before.inputs).contains(name@));
        assert forall|i: int, j: int| 0 <= i < j < input_names(self@.inputs).len() implies input_names(
            self@.inputs,
        )[i] != input_names(self@.inputs)[j] by {
            if j == input_names(before.inputs).len() {
                assert(input_names(before.inputs)[i] == input_names(self@.inputs)[i]);
            }
        }
        Ok(reference)
    }
}


/// The merged relative requirement of an input, or `None` when the domains
/// differ.
pub open spec fn merged_rel(existing: Option<AnyRelTimeLock>, required: AnyRelTimeLock) -> Option<
    AnyRelTimeLock,
> {
    match existing {
        None => Some(required),
        Some(e) => if same_rel_domain(e, required) {
            Some(rel_max(e, required))
        } else {
            None
        },
    }
}

/// What an input requires after two calls of `require_older`, `first` then
/// `second`, starting from `existing`; `None` when either call conflicts.
pub open spec fn merged_rel_twice(
    existing: Option<AnyRelTimeLock>,
    first: AnyRelTimeLock,
    second: AnyRelTimeLock,
) -> Option<AnyRelTimeLock> {
    match merged_rel(existing, first) {
        None => None,
        Some(l) => merged_rel(Some(l), second),
    }
}

/// Relative requirements of one domain merge to their maximum, in either
/// order: two calls of `require_older` leave an input without a relative
/// lock requiring the larger of the two, whichever came first; a second
/// requirement of the other domain conflicts with the first.
pub proof fn lemma_require_older_order_free(
    existing: Option<AnyRelTimeLock>,
    first: AnyRelTimeLock,
    second: AnyRelTimeLock,
)
    ensures
        merged_rel_twice(existing, first, second) == merged_rel_twice(existing, second, first),
        existing is None && same_rel_domain(first, second) ==> merged_rel_twice(
            existing,
            first,
            second,
        ) == Some(rel_max(first, second)),
        existing is None && !same_rel_domain(first, second) ==> merged_rel_twice(
            existing,
            first,
            second,
        ) is None,
{
}

/// The merged absolute requirement, or `None` when the domains differ.
pub open spec fn merged_abs(existing: Option<AnyAbsTimeLock>, required: AnyAbsTimeLock) -> Option<
    AnyAbsTimeLock,
> {
    match existing {
        None => Some(required),
        Some(e) => if same_abs_domain(e, required) {
            Some(abs_max(e, required))
        } else {
            None
        },
    }
}

/// The index of the first output that takes the remainder.
fn find_remainder<'a, C: ?Sized>(outputs: &Vec<PlannedOutput<'a, C>>) -> (r: Option<usize>)
    ensures
        r matches Some(i) ==> i < outputs@.len() && outputs@[i as int].amount
            == OutputAmount::Remainder,
        r is None ==> forall|k: int|
            0 <= k < outputs@.len() ==> #[trigger] outputs@[k].amount != OutputAmount::Remainder,
{
    let mut i: usize = 0;
    while i < outputs.len()
        invariant
            i <= outputs@.len(),
            forall|k: int| 0 <= k < i ==> #[trigger] outputs@[k].amount != OutputAmount::Remainder,
        decreases outputs@.len() - i,
    {
        if outputs[i].amount == OutputAmount::Remainder {
            return Some(i);
        }
        i += 1;
    }
    None
}

impl<'a, C: Compilable + ?Sized> TemplatePlan<'a, C> {
    /// Append a named output without compiling its child yet. A remainder
    /// stays at its declared position, including before exact outputs.
    pub fn output(&mut self, name: String, amount: OutputAmount, contract: &'a C) -> (r:
        Result<OutputRef, PlanError>)
        requires
            plan_wf(old(self)@),
        ensures
            r is Ok ==> final(self).contracts() == old(self).contracts().push(contract),
            r is Err ==> final(self).contracts() == old(self).contracts(),
            plan_wf(final(self)@),
            name@.len() == 0 ==> (r matches Err(e) && e is EmptyName),
            name@.len() > 0 && output_names(old(self)@.outputs).contains(name@) ==> (r matches Err(e)
                && e == PlanError::DuplicateName { kind: NameKind::Output, name }),
            name@.len() > 0 && !output_names(old(self)@.outputs).contains(name@) && amount
                == OutputAmount::Remainder && has_remainder(old(self)@.outputs) ==> (r matches Err(e)
                && e matches PlanError::MultipleRemainders { first, second } && second == name
                && exists|i: int|
                0 <= i < old(self)@.outputs.len() && #[trigger] old(self)@.outputs[i].amount
                    == OutputAmount::Remainder && old(self)@.outputs[i].name == first),
            r is Err ==> final(self)@ == old(self)@,
            name@.len() > 0 && !output_names(old(self)@.outputs).contains(name@) && !(amount
                == OutputAmount::Remainder && has_remainder(old(self)@.outputs)) ==> (r matches Ok(
                o,
            ) && o@ == name@ && final(self)@ == (PlanView {
                outputs: old(self)@.outputs.push(
                    OutputPlanView { name, amount, ordinals: Seq::empty() },
                ),
                ..old(self)@
            })),
    {
        if name.as_str().is_empty() {
            return Err(PlanError::EmptyName);
        }
        match find_output(&self.outputs, &name) {
            Some(i) => {
                assert(output_names(self@.outputs)[i as int] == name@);
                return Err(PlanError::DuplicateName { kind: NameKind::Output, name });
            },
            None => {},
        }
        proof {
            if output_names(self@.outputs).contains(name@) {
                let k = choose|k: int|
                    0 <= k < output_names(self@.outputs).len() && output_names(self@.outputs)[k]
                        == name@;
                assert(self.outputs@[k].name@ == name@);
            }
        }
        let ghost before = self@;
        if amount == OutputAmount::Remainder {
            match find_remainder(&self.outputs) {
                Some(i) => {
                    let first = self.outputs[i].name.clone();
                    assert(self@.outputs[i as int] == output_view(self.outputs@[i as int]));
                    assert(self@.outputs[i as int].amount == OutputAmount::Remainder);
                    assert(self@.outputs[i as int].name == first);
                    assert(has_remainder(self@.outputs));
                    return Err(PlanError::MultipleRemainders { first, second: name });
                },
                None => {
                    assert forall|k: int| 0 <= k < self@.outputs.len() implies #[trigger] self@.outputs[k].amount != OutputAmount::Remainder by {
                        assert(self@.outputs[k] == output_view(self.outputs@[k]));
                    }
                },
            }
        }
        let reference = OutputRef(name.clone());
        let planned = PlannedOutput { name, amount, contract, ordinals: Vec::new() };
        assert(output_view(planned) =~= OutputPlanView { name: name, amount, ordinals: Seq::empty() });
        let ghost old_outputs = self.outputs@;
        let ghost pv = output_view(planned);
        self.outputs.push(planned);
        assert(self@.outputs[before.outputs.len() as int] == pv);
        assert(self@.outputs =~= before.outputs.push(
            OutputPlanView { name: name, amount, ordinals: Seq::empty() },
        ));
        assert(output_names(self@.outputs) =~= output_names(before.outputs).push(name@));
        assert(!output_names(before.outputs).contains(name@));
        assert forall|i: int, j: int| 0 <= i < j < output_names(self@.outputs).len() implies output_names(
            self@.outputs,
        )[i] != output_names(self@.outputs)[j] by {
            if j == output_names(before.outputs).len() {
                assert(output_names(before.outputs)[i] == output_names(self@.outputs)[i]);
            }
        }
        assert forall|i: int, j: int| 0 <= i < j < self@.outputs.len() implies !(
        #[trigger] self@.outputs[i].amount is Remainder && #[trigger] self@.outputs[j].amount is Remainder) by {
            if j == before.outputs.len() && amount == OutputAmount::Remainder {
                assert(before.outputs[i].amount != OutputAmount::Remainder);
            }
        }
        Ok(reference)
    }

    /// Require this input's sequence to meet a typed relative lock.
    /// Compatible constraints merge to their maximum; different domains fail.
    pub fn require_older(&mut self, input: &InputRef, required: AnyRelTimeLock) -> (r: Result<
        &mut Self,
        PlanError,
    >)
        requires
            plan_wf(old(self)@),
        ensures
            r is Err ==> final(self).contracts() == old(self).contracts(),
            r matches Ok(m) ==> (*m).contracts() == old(self).contracts(),
            !input_names(old(self)@.inputs).contains(input@) ==> (r matches Err(e) && e matches PlanError::UnknownInput(n) && n@ == input@),
            forall|i: int|
                0 <= i < old(self)@.inputs.len() && #[trigger] old(self)@.inputs[i].name@ == input@
                    ==> match merged_rel(old(self)@.inputs[i].sequence, required) {
                    None => r matches Err(e) && e matches PlanError::ConflictingRelativeLocks {
                        input: n,
                        existing,
                        requested,
                    } && n@ == input@ && existing == rel_encoding(
                        old(self)@.inputs[i].sequence->Some_0,
                    ) && requested == rel_encoding(required),
                    Some(l) => r matches Ok(m) && (*m)@ == (PlanView {
                        inputs: old(self)@.inputs.update(
                            i,
                            InputPlanView { sequence: Some(l), ..old(self)@.inputs[i] },
                        ),
                        ..old(self)@
                    }) && plan_wf((*m)@) && *final(self) == *final(m),
                },
            r is Err ==> final(self)@ == old(self)@,
    {
        let i = match find_input(&self.inputs, &input.0) {
            Some(i) => i,
            None => {
                proof {
                    if input_names(self@.inputs).contains(input@) {
                        let k = choose|k: int|
                            0 <= k < input_names(self@.inputs).len() && input_names(self@.inputs)[k]
                                == input@;
                        assert(self.inputs@[k].requirement.name@ == input@);
                    }
                }
                return Err(PlanError::UnknownInput(input.0.clone()));
            },
        };
        let ghost before = self@;
        assert(before.inputs[i as int] == input_view(self.inputs@[i as int]));
        assert forall|k: int| 0 <= k < before.inputs.len() && #[trigger] before.inputs[k].name@ == input@ implies k == i by {
            assert(input_names(before.inputs)[k] == input_names(before.inputs)[i as int]);
        }
        let merged = match self.inputs[i].sequence {
            None => required,
            Some(existing) => match existing.merge(&required) {
                Some(m) => m,
                None => {
                    return Err(
                        PlanError::ConflictingRelativeLocks {
                            input: input.0.clone(),
                            existing: existing.get(),
                            requested: required.get(),
                        },
                    );
                },
            },
        };
        let updated = PlannedInput {
            requirement: InputRequirement {
                name: self.inputs[i].requirement.name.clone(),
                minimum: self.inputs[i].requirement.minimum,
            },
            sequence: Some(merged),
        };
        self.inputs.set(i, updated);
        assert(self@.inputs =~= before.inputs.update(
            i as int,
            InputPlanView { sequence: Some(merged), ..before.inputs[i as int] },
        ));
        assert(input_names(self@.inputs) =~= input_names(before.inputs));
        Ok(self)
    }

    /// Require a typed absolute transaction lock, merging compatible minima.
    pub fn require_after(&mut self, required: AnyAbsTimeLock) -> (r: Result<&mut Self, PlanError>)
        ensures
            r is Err ==> final(self).contracts() == old(self).contracts(),
            r matches Ok(m) ==> (*m).contracts() == old(self).contracts(),
            match merged_abs(old(self)@.lock_time, required) {
                None => r matches Err(e) && e == PlanError::ConflictingAbsoluteLocks {
                    existing: abs_encoding(old(self)@.lock_time->Some_0),
                    requested: abs_encoding(required),
                } && final(self)@ == old(self)@,
                Some(l) => r matches Ok(m) && (*m)@ == (PlanView { lock_time: Some(l), ..old(self)@ })
                    && *final(self) == *final(m),
            },
    {
        let merged = match self.lock_time {
            None => required,
            Some(existing) => match existing.merge(&required) {
                Some(m) => m,
                None => {
                    return Err(
                        PlanError::ConflictingAbsoluteLocks {
                            existing: existing.get(),
                            requested: required.get(),
                        },
                    );
                },
            },
        };
        self.lock_time = Some(merged);
        Ok(self)
    }

    /// Choose explicitly whether surplus funding may become additional fees.
    pub fn surplus(&mut self, surplus: Surplus) -> (r: &mut Self)
        ensures
            (*r).contracts() == old(self).contracts(),
            *final(self) == *final(r),
            (*r)@ == (PlanView { surplus, ..old(self)@ }),
    {
        self.surplus = surplus;
        self
    }

    /// Require a fee rate, in satoshis per 1,000 weight units, when the final
    /// transaction's weight is known; repeated requests take the maximum.
    /// This is retained spending policy, independent of the fee reservation.
    pub fn require_feerate(&mut self, minimum: u64) -> (r: &mut Self)
        ensures
            (*r).contracts() == old(self).contracts(),
            *final(self) == *final(r),
            (*r)@ == (PlanView {
                minimum_feerate: Some(
                    match old(self)@.minimum_feerate {
                        Some(old_rate) => if old_rate < minimum {
                            minimum
                        } else {
                            old_rate
                        },
                        None => minimum,
                    },
                ),
                ..old(self)@
            }),
    {
        let rate = match self.minimum_feerate {
            Some(old_rate) => if old_rate < minimum {
                minimum
            } else {
                old_rate
            },
            None => minimum,
        };
        self.minimum_feerate = Some(rate);
        self
    }

    /// Set optional transaction annotations without changing spending rules.
    pub fn metadata(&mut self, metadata: TemplateMetadata) -> (r: &mut Self)
        ensures
            (*r).contracts() == old(self).contracts(),
            *final(self) == *final(r),
            (*r)@ == (PlanView {
                label: opt_chars(metadata.label),
                color: opt_chars(metadata.color),
                ..old(self)@
            }),
    {
        self.metadata = metadata;
        self
    }

    /// Require an ordinal at a zero-based satoshi offset in this output.
    /// Placement is checked against the supplied input ranges after resolving
    /// amounts, without reordering outputs or inventing unknown ordinal data.
    pub fn require_ordinal(&mut self, output: &OutputRef, ordinal: Ordinal, offset: u64) -> (r:
        Result<&mut Self, PlanError>)
        requires
            plan_wf(old(self)@),
        ensures
            r is Err ==> final(self).contracts() == old(self).contracts(),
            r matches Ok(m) ==> (*m).contracts() == old(self).contracts(),
            !output_names(old(self)@.outputs).contains(output@) ==> (r matches Err(e) && e matches PlanError::UnknownOutput(n) && n@ == output@
                && final(self)@ == old(self)@),
            forall|i: int|
                0 <= i < old(self)@.outputs.len() && #[trigger] old(self)@.outputs[i].name@
                    == output@ ==> (r matches Ok(m) && (*m)@ == (PlanView {
                    outputs: old(self)@.outputs.update(
                        i,
                        OutputPlanView {
                            ordinals: old(self)@.outputs[i].ordinals.push((ordinal, offset)),
                            ..old(self)@.outputs[i]
                        },
                    ),
                    ..old(self)@
                }) && plan_wf((*m)@) && *final(self) == *final(m)),
    {
        let i = match find_output(&self.outputs, &output.0) {
            Some(i) => i,
            None => {
                proof {
                    if output_names(self@.outputs).contains(output@) {
                        let k = choose|k: int|
                            0 <= k < output_names(self@.outputs).len() && output_names(
                                self@.outputs,
                            )[k] == output@;
                        assert(self.outputs@[k].name@ == output@);
                    }
                }
                return Err(PlanError::UnknownOutput(output.0.clone()));
            },
        };
        let ghost before = self@;
        assert(before.outputs[i as int] == output_view(self.outputs@[i as int]));
        assert forall|k: int| 0 <= k < before.outputs.len() && #[trigger] before.outputs[k].name@ == output@ implies k == i by {
            assert(output_names(before.outputs)[k] == output_names(before.outputs)[i as int]);
        }
        let mut planned = self.outputs.remove(i);
        planned.ordinals.push((ordinal, offset));
        self.outputs.insert(i, planned);
        assert(self@.outputs =~= before.outputs.update(
            i as int,
            OutputPlanView {
                ordinals: before.outputs[i as int].ordinals.push((ordinal, offset)),
                ..before.outputs[i as int]
            },
        ));
        assert(output_names(self@.outputs) =~= output_names(before.outputs));
        Ok(self)
    }
}


proof fn lemma_output_ordinals_err_stays(
    ranges: Option<Seq<(u64, u64)>>,
    o: OutputPlanView,
    amount: u64,
    start: int,
    j: int,
    m: int,
)
    requires
        0 <= j <= m,
        output_ordinals_check(ranges, o, amount, start, j) is Err,
    ensures
        output_ordinals_check(ranges, o, amount, start, m) == output_ordinals_check(
            ranges,
            o,
            amount,
            start,
            j,
        ),
    decreases m - j,
{
    if m > j {
        lemma_output_ordinals_err_stays(ranges, o, amount, start, j, m - 1);
    }
}

proof fn lemma_placements_err_stays(
    ranges: Option<Seq<(u64, u64)>>,
    s: Seq<OutputPlanView>,
    remainder: u64,
    k: int,
    m: int,
)
    requires
        0 <= k <= m,
        placements_check(ranges, s, remainder, k) is Err,
    ensures
        placements_check(ranges, s, remainder, m) == placements_check(ranges, s, remainder, k),
    decreases m - k,
{
    if m > k {
        lemma_placements_err_stays(ranges, s, remainder, k, m - 1);
    }
}

proof fn lemma_amounts_before_monotone(s: Seq<OutputPlanView>, remainder: u64, k: int, m: int)
    requires
        0 <= k <= m,
    ensures
        0 <= amounts_before(s, remainder, k) <= amounts_before(s, remainder, m),
    decreases m - k,
{
    if m > k {
        lemma_amounts_before_monotone(s, remainder, k, m - 1);
    } else {
        lemma_amounts_before_nonneg(s, remainder, k);
    }
}

proof fn lemma_amounts_before_nonneg(s: Seq<OutputPlanView>, remainder: u64, k: int)
    ensures
        amounts_before(s, remainder, k) >= 0,
    decreases k,
{
    if k > 0 {
        lemma_amounts_before_nonneg(s, remainder, k - 1);
    }
}

/// The amount an output receives.
fn amount_of<'a, C: ?Sized>(o: &PlannedOutput<'a, C>, remainder: u64) -> (r: u64)
    ensures
        r == resolved_amount(output_view(*o), remainder),
{
    match o.amount {
        OutputAmount::Exact(a) => a,
        OutputAmount::Remainder => remainder,
    }
}

/// Check the ordinal requirements of one output, which receives `amount`
/// sats from transaction position `start`.
fn check_output_ordinals<'a, C: ?Sized>(
    ranges: &Option<OrdinalsInfo>,
    o: &PlannedOutput<'a, C>,
    amount: u64,
    start: u64,
) -> (r: Result<(), PlanError>)
    requires
        ranges matches Some(info) ==> ranges_valid(info@),
    ensures
        r == output_ordinals_check(
            ordinals_view_of(ranges),
            output_view(*o),
            amount,
            start as int,
            o.ordinals@.len() as int,
        ),
{
    let ghost ov = output_view(*o);
    let ghost rv = ordinals_view_of(ranges);
    let mut j: usize = 0;
    while j < o.ordinals.len()
        invariant
            j <= o.ordinals@.len(),
            ov == output_view(*o),
            rv == ordinals_view_of(ranges),
            ranges matches Some(info) ==> ranges_valid(info@),
            output_ordinals_check(rv, ov, amount, start as int, j as int) is Ok,
        decreases o.ordinals@.len() - j,
    {
        let (ordinal, offset) = o.ordinals[j];
        assert(ov.ordinals[j as int] == (ordinal, offset));
        if offset >= amount {
            proof {
                lemma_output_ordinals_err_stays(rv, ov, amount, start as int, j + 1, o.ordinals@.len() as int);
            }
            return Err(PlanError::InvalidOrdinalOffset { output: o.name.clone(), offset, amount });
        }
        let position = match ranges {
            Some(info) => info.find_position(ordinal.0),
            None => None,
        };
        let position = match position {
            Some(p) => p,
            None => {
                proof {
                    lemma_output_ordinals_err_stays(rv, ov, amount, start as int, j + 1, o.ordinals@.len() as int);
                }
                return Err(PlanError::UnknownOrdinal { output: o.name.clone(), ordinal });
            },
        };
        let actual = if position >= start && position - start < amount {
            Some(position - start)
        } else {
            None
        };
        let placed = match actual {
            Some(a) => a == offset,
            None => false,
        };
        if !placed {
            proof {
                lemma_output_ordinals_err_stays(rv, ov, amount, start as int, j + 1, o.ordinals@.len() as int);
            }
            return Err(
                PlanError::OrdinalPlacement {
                    output: o.name.clone(),
                    ordinal,
                    required: offset,
                    actual,
                },
            );
        }
        j += 1;
    }
    Ok(())
}

/// The view of optional ordinal ranges.
pub open spec fn ordinals_view_of(o: &Option<OrdinalsInfo>) -> Option<Seq<(u64, u64)>> {
    match o {
        Some(info) => Some(info@),
        None => None,
    }
}

/// Check the ordinal requirements of every output in order.
fn check_placements<'a, C: ?Sized>(
    ranges: &Option<OrdinalsInfo>,
    outputs: &Vec<PlannedOutput<'a, C>>,
    remainder: u64,
) -> (r: Result<(), PlanError>)
    requires
        ranges matches Some(info) ==> ranges_valid(info@),
        amounts_before(
            outputs@.map_values(|o: PlannedOutput<'a, C>| output_view(o)),
            remainder,
            outputs@.len() as int,
        ) <= u64::MAX,
    ensures
        r == placements_check(
            ordinals_view_of(ranges),
            outputs@.map_values(|o: PlannedOutput<'a, C>| output_view(o)),
            remainder,
            outputs@.len() as int,
        ),
{
    let ghost ov = outputs@.map_values(|o: PlannedOutput<'a, C>| output_view(o));
    let ghost rv = ordinals_view_of(ranges);
    let ghost n = outputs@.len() as int;
    let mut start: u64 = 0;
    let mut k: usize = 0;
    while k < outputs.len()
        invariant
            k <= n,
            n == outputs@.len(),
            ov == outputs@.map_values(|o: PlannedOutput<'a, C>| output_view(o)),
            rv == ordinals_view_of(ranges),
            ranges matches Some(info) ==> ranges_valid(info@),
            amounts_before(ov, remainder, n) <= u64::MAX,
            start == amounts_before(ov, remainder, k as int),
            placements_check(rv, ov, remainder, k as int) is Ok,
        decreases n - k,
    {
        assert(ov[k as int] == output_view(outputs@[k as int]));
        let amount = amount_of(&outputs[k], remainder);
        match check_output_ordinals(ranges, &outputs[k], amount, start) {
            Ok(_) => {},
            Err(e) => {
                proof {
                    lemma_placements_err_stays(rv, ov, remainder, k + 1, n);
                }
                return Err(e);
            },
        }
        proof {
            lemma_amounts_before_monotone(ov, remainder, k + 1, n);
        }
        start = start + amount;
        k += 1;
    }
    Ok(())
}


/// The remainder's share of the first `k` outputs' amounts.
spec fn remainder_part(s: Seq<OutputPlanView>, remainder: u64, k: int) -> int
    decreases k,
{
    if k <= 0 {
        0
    } else {
        remainder_part(s, remainder, k - 1) + if s[k - 1].amount == OutputAmount::Remainder {
            remainder as int
        } else {
            0
        }
    }
}

/// Some output among the first `k` takes the remainder.
spec fn remainder_before(s: Seq<OutputPlanView>, k: int) -> bool {
    exists|i: int| 0 <= i < k && #[trigger] s[i].amount == OutputAmount::Remainder
}

proof fn lemma_amounts_split(s: Seq<OutputPlanView>, remainder: u64, k: int)
    requires
        0 <= k <= s.len(),
        exact_fold(s, k) is Ok,
    ensures
        amounts_before(s, remainder, k) == exact_fold(s, k)->Ok_0 + remainder_part(
            s,
            remainder,
            k,
        ),
    decreases k,
{
    if k > 0 {
        lemma_amounts_split(s, remainder, k - 1);
    }
}

proof fn lemma_remainder_part(s: Seq<OutputPlanView>, remainder: u64, k: int)
    requires
        0 <= k <= s.len(),
        forall|i: int, j: int|
            0 <= i < j < s.len() ==> !(#[trigger] s[i].amount is Remainder
                && #[trigger] s[j].amount is Remainder),
    ensures
        remainder_part(s, remainder, k) == if remainder_before(s, k) {
            remainder as int
        } else {
            0
        },
    decreases k,
{
    if k > 0 {
        lemma_remainder_part(s, remainder, k - 1);
        if s[k - 1].amount == OutputAmount::Remainder {
            assert(!remainder_before(s, k - 1)) by {
                if remainder_before(s, k - 1) {
                    let i = choose|i: int| 0 <= i < k - 1 && #[trigger] s[i].amount == OutputAmount::Remainder;
                    assert(s[i].amount is Remainder && s[k - 1].amount is Remainder);
                }
            }
            assert(remainder_before(s, k));
        } else {
            assert(remainder_before(s, k) == remainder_before(s, k - 1)) by {
                if remainder_before(s, k) {
                    let i = choose|i: int| 0 <= i < k && #[trigger] s[i].amount == OutputAmount::Remainder;
                    assert(i < k - 1);
                }
            }
        }
    }
}

proof fn lemma_budget_covers_first(s: Seq<InputPlanView>, k: int)
    requires
        1 <= k <= s.len(),
        budget_fold(s, k) is Ok,
    ensures
        budget_fold(s, k)->Ok_0 >= s[0].minimum,
    decreases k,
{
    if k > 1 {
        lemma_budget_covers_first(s, k - 1);
    }
}

proof fn lemma_budget_err_stays(s: Seq<InputPlanView>, k: int, m: int)
    requires
        0 <= k <= m,
        budget_fold(s, k) is Err,
    ensures
        budget_fold(s, m) == budget_fold(s, k),
    decreases m - k,
{
    if m > k {
        lemma_budget_err_stays(s, k, m - 1);
    }
}

proof fn lemma_exact_err_stays(s: Seq<OutputPlanView>, k: int, m: int)
    requires
        0 <= k <= m,
        exact_fold(s, k) is Err,
    ensures
        exact_fold(s, m) == exact_fold(s, k),
    decreases m - k,
{
    if m > k {
        lemma_exact_err_stays(s, k, m - 1);
    }
}

/// A resolved plan spends its whole budget: the outputs' amounts and the
/// fees add up to the declared input minimums, of which the auxiliary inputs
/// supply all but the contract input's share.
pub proof fn lemma_resolution_accounts(v: PlanView)
    requires
        plan_wf(v),
        resolve(v) is Ok,
    ensures
        ({
            let res = resolve(v)->Ok_0;
            &&& amounts_before(v.outputs, res.remainder, v.outputs.len() as int) + res.fees
                == res.budget
            &&& res.external + v.inputs[0].minimum == res.budget
            &&& res.fees <= res.maximum_fee
            &&& budget_fold(v.inputs, v.inputs.len() as int) == Ok::<u64, PlanError>(res.budget)
        }),
{
    let res = resolve(v)->Ok_0;
    let n = v.outputs.len() as int;
    lemma_amounts_split(v.outputs, res.remainder, n);
    lemma_remainder_part(v.outputs, res.remainder, n);
    lemma_budget_covers_first(v.inputs, v.inputs.len() as int);
    assert(remainder_before(v.outputs, n) == has_remainder(v.outputs));
}


impl<'a, C: Compilable + ?Sized> TemplatePlan<'a, C> {
    /// Resolve the budget, the fees and the ordinal placements.
    fn resolve_plan(&self) -> (r: Result<Resolution, PlanError>)
        requires
            plan_wf(self@),
        ensures
            r == resolve(self@),
    {
        let ghost v = self@;
        if self.outputs.len() == 0 {
            return Err(PlanError::NoOutputs);
        }
        let ranges = self.ctx.get_ordinals();
        match ranges {
            Some(info) => {
                let in_ranges = match info.total() {
                    Ok(t) => t,
                    Err(e) => return Err(PlanError::Compilation { at: PlanSite::ContractOrdinals, source: e }),
                };
                if in_ranges != self.ctx.funds() {
                    return Err(PlanError::OrdinalFunding { available: self.ctx.funds(), in_ranges });
                }
            },
            None => {},
        }
        let mut budget: u64 = 0;
        let mut i: usize = 0;
        while i < self.inputs.len()
            invariant
                i <= self.inputs@.len(),
                v == self@,
                budget_fold(v.inputs, i as int) == Ok::<u64, PlanError>(budget),
                v.outputs.len() > 0,
                !(v.ctx.ordinals is Some && total_spec(v.ctx.ordinals->Some_0) is Err),
                !(v.ctx.ordinals is Some && total_spec(v.ctx.ordinals->Some_0)->Ok_0 != v.ctx.funds),
            decreases self.inputs@.len() - i,
        {
            assert(v.inputs[i as int] == input_view(self.inputs@[i as int]));
            budget = match budget.checked_add(self.inputs[i].requirement.minimum) {
                Some(b) => b,
                None => {
                    proof {
                        lemma_budget_err_stays(v.inputs, i + 1, v.inputs.len() as int);
                    }
                    return Err(
                        PlanError::AmountOverflow {
                            at: PlanSite::Input(self.inputs[i].requirement.name.clone()),
                        },
                    );
                },
            };
            i += 1;
        }
        let mut exact: u64 = 0;
        let mut k: usize = 0;
        while k < self.outputs.len()
            invariant
                k <= self.outputs@.len(),
                v == self@,
                exact_fold(v.outputs, k as int) == Ok::<u64, PlanError>(exact),
                budget_fold(v.inputs, v.inputs.len() as int) == Ok::<u64, PlanError>(budget),
                v.outputs.len() > 0,
                !(v.ctx.ordinals is Some && total_spec(v.ctx.ordinals->Some_0) is Err),
                !(v.ctx.ordinals is Some && total_spec(v.ctx.ordinals->Some_0)->Ok_0 != v.ctx.funds),
            decreases self.outputs@.len() - k,
        {
            assert(v.outputs[k as int] == output_view(self.outputs@[k as int]));
            match self.outputs[k].amount {
                OutputAmount::Remainder => {},
                OutputAmount::Exact(a) => {
                    exact = match exact.checked_add(a) {
                        Some(x) => x,
                        None => {
                            proof {
                                lemma_exact_err_stays(v.outputs, k + 1, v.outputs.len() as int);
                            }
                            return Err(
                                PlanError::AmountOverflow {
                                    at: PlanSite::Output(self.outputs[k].name.clone()),
                                },
                            );
                        },
                    };
                },
            }
            k += 1;
        }
        let remainder = match budget.checked_sub(exact) {
            Some(x) => match x.checked_sub(self.reserved_fees) {
                Some(y) => y,
                None => return Err(
                    PlanError::InsufficientFunds { available: budget, outputs: exact, fees: self.reserved_fees },
                ),
            },
            None => return Err(
                PlanError::InsufficientFunds { available: budget, outputs: exact, fees: self.reserved_fees },
            ),
        };
        let has_remainder_output = match find_remainder(&self.outputs) {
            Some(j) => {
                assert(v.outputs[j as int] == output_view(self.outputs@[j as int]));
                assert(v.outputs[j as int].amount == OutputAmount::Remainder);
                true
            },
            None => {
                assert forall|j: int| 0 <= j < v.outputs.len() implies #[trigger] v.outputs[j].amount != OutputAmount::Remainder by {
                    assert(v.outputs[j] == output_view(self.outputs@[j]));
                }
                false
            },
        };
        assert(has_remainder_output == has_remainder(v.outputs));
        let (fees, maximum_fee) = match self.surplus {
            Surplus::Reject => {
                if !has_remainder_output && remainder != 0 {
                    return Err(PlanError::UnallocatedFunds { amount: remainder });
                }
                (self.reserved_fees, self.reserved_fees)
            },
            Surplus::Fees { maximum } => {
                let fees = if has_remainder_output {
                    self.reserved_fees
                } else {
                    budget - exact
                };
                if fees > maximum {
                    return Err(PlanError::FeeLimit { fee: fees, maximum });
                }
                (fees, maximum)
            },
        };
        proof {
            let n = v.outputs.len() as int;
            lemma_amounts_split(v.outputs, remainder, n);
            lemma_remainder_part(v.outputs, remainder, n);
            lemma_budget_covers_first(v.inputs, v.inputs.len() as int);
            assert(remainder_before(v.outputs, n) == has_remainder(v.outputs));
        }
        assert(self@.inputs[0] == input_view(self.inputs@[0]));
        let external = budget - self.inputs[0].requirement.minimum;
        match check_placements(ranges, &self.outputs, remainder) {
            Ok(_) => {},
            Err(e) => return Err(e),
        }
        Ok(Resolution { budget, exact, remainder, fees, maximum_fee, external })
    }
}


/// What the template of a finished plan holds, given its resolution.
pub open spec fn finished_template(v: PlanView, res: Resolution, t: Template) -> bool {
    &&& finished_layout(v, res, t)
    &&& constraints_check(&t) is Ok
}

/// The template a finished plan builds, before its retained constraints
/// are checked: its budget, outputs, locks, annotations and constraints.
pub open spec fn finished_layout(v: PlanView, res: Resolution, t: Template) -> bool {
    &&& t.max == res.budget
    &&& t.required_input_amount == v.inputs[0].minimum
    &&& t.outputs@.len() == v.outputs.len()
    &&& forall|i: int|
        0 <= i < v.outputs.len() ==> #[trigger] t.outputs@[i].amount == resolved_amount(
            v.outputs[i],
            res.remainder,
        )
    &&& t.sequences@ == v.inputs.map_values(|i: InputPlanView| sequence_value(i.sequence))
    &&& t.lock_time == lock_time_value(v.lock_time)
    &&& t.version == 2
    &&& t.min_feerate_sats_vbyte is None
    &&& opt_chars(t.metadata.label) == v.label
    &&& opt_chars(t.metadata.color) == v.color
    &&& t.funding_constraints is Some
    &&& t.funding_constraints->Some_0.inputs@ == v.inputs.map_values(
        |i: InputPlanView| InputRequirement { name: i.name, minimum: i.minimum },
    )
    &&& t.funding_constraints->Some_0.outputs@ == v.outputs.map_values(|o: OutputPlanView| o.name)
    &&& t.funding_constraints->Some_0.maximum_fee == res.maximum_fee
    &&& t.funding_constraints->Some_0.minimum_feerate == v.minimum_feerate
    &&& t.ctv@ == ctv_hash(template_tx(&t), 0)
    &&& t.ctv_index == 0
}

/// The funding requirement of each planned input.
fn requirements_of(inputs: &Vec<PlannedInput>) -> (r: Vec<InputRequirement>)
    ensures
        r@ == inputs@.map_values(|p: PlannedInput| p.requirement),
{
    let mut r: Vec<InputRequirement> = Vec::new();
    let mut i: usize = 0;
    while i < inputs.len()
        invariant
            i <= inputs@.len(),
            r@ == inputs@.take(i as int).map_values(|p: PlannedInput| p.requirement),
        decreases inputs@.len() - i,
    {
        r.push(
            InputRequirement {
                name: inputs[i].requirement.name.clone(),
                minimum: inputs[i].requirement.minimum,
            },
        );
        assert(r@ =~= inputs@.take(i + 1).map_values(|p: PlannedInput| p.requirement));
        i += 1;
    }
    assert(inputs@.take(i as int) =~= inputs@);
    r
}

/// The name of each planned output.
fn names_of<'a, C: ?Sized>(outputs: &Vec<PlannedOutput<'a, C>>) -> (r: Vec<String>)
    ensures
        r@ == outputs@.map_values(|o: PlannedOutput<'a, C>| o.name),
{
    let mut r: Vec<String> = Vec::new();
    let mut i: usize = 0;
    while i < outputs.len()
        invariant
            i <= outputs@.len(),
            r@ == outputs@.take(i as int).map_values(|o: PlannedOutput<'a, C>| o.name),
        decreases outputs@.len() - i,
    {
        r.push(outputs[i].name.clone());
        assert(r@ =~= outputs@.take(i + 1).map_values(|o: PlannedOutput<'a, C>| o.name));
        i += 1;
    }
    assert(outputs@.take(i as int) =~= outputs@);
    r
}


impl<'a, C: ?Sized> TemplatePlan<'a, C> {
    /// The child contracts of the outputs, in order.
    pub closed spec fn contracts(&self) -> Seq<&'a C> {
        self.outputs@.map_values(|o: PlannedOutput<'a, C>| o.contract)
    }

    /// The child contract of output `i`.
    pub open spec fn contract_at(&self, i: int) -> &'a C {
        self.contracts()[i]
    }
}

impl<'a, C: Compilable + ?Sized> TemplatePlan<'a, C> {
    /// Every child compiles, in any context, to a result that requires no
    /// more than the context's funds.
    pub open spec fn children_fit(&self) -> bool {
        forall|i: int, cv: ContextView, cr: Result<Compiled, CompilationError>|
            0 <= i < self@.outputs.len() && #[trigger] self.contract_at(i).compiles_to(cv, cr) ==> (
            cr matches Ok(c) && c.required_input_amount <= cv.funds)
    }
}

/// How compiling the child `contract` of output `i` of a plan in context
/// `ctx` can fail: its branch was already derived, the child reported the
/// error itself, or it required more than its output's amount.
pub open spec fn child_failed<C: Compilable + ?Sized>(
    contract: &C,
    ctx: ContextView,
    i: int,
    e: CompilationError,
) -> bool {
    ||| (e == CompilationError::ContexPathAlreadyDerived && ctx.derived.contains(
        FragmentView::Branch(i as u64),
    ))
    ||| e is UnderfundedOutput
    ||| exists|cv: ContextView|
        cv.path == ctx.path.push(FragmentView::Branch(i as u64)) && #[trigger] contract.compiles_to(
            cv,
            Err::<Compiled, CompilationError>(e),
        )
}

/// The branches of the first `k` outputs, in order.
pub open spec fn branch_seq(k: int) -> Seq<FragmentView> {
    Seq::new(k as nat, |j: int| FragmentView::Branch(j as u64))
}

/// The declared requirements of a plan's inputs.
pub open spec fn plan_requirements(s: Seq<InputPlanView>) -> Seq<InputRequirement> {
    s.map_values(|i: InputPlanView| InputRequirement { name: i.name, minimum: i.minimum })
}

proof fn lemma_budget_is_minimums(s: Seq<InputPlanView>, k: int)
    requires
        0 <= k <= s.len(),
        budget_fold(s, k) is Ok,
    ensures
        minimums_total(plan_requirements(s).take(k)) == budget_fold(s, k)->Ok_0,
    decreases k,
{
    if k > 0 {
        lemma_budget_is_minimums(s, k - 1);
        assert(plan_requirements(s).take(k).drop_last() =~= plan_requirements(s).take(k - 1));
    } else {
        assert(plan_requirements(s).take(0) =~= Seq::<InputRequirement>::empty());
    }
}

/// With a single input, the budget is that input's minimum.
proof fn lemma_budget_single(s: Seq<InputPlanView>)
    requires
        s.len() == 1,
    ensures
        budget_fold(s, 1) == Ok::<u64, PlanError>(s[0].minimum),
{
    assert(budget_fold(s, 0) == Ok::<u64, PlanError>(0));
}

impl<'a, C: Compilable + ?Sized> TemplatePlan<'a, C> {
    /// Resolve the finite budget and locks, compile each child once, and
    /// freeze the exact ordered transaction and its local spending
    /// requirements.
    ///
    /// Every error of the resolution comes before any child is compiled;
    /// what a child's compilation returns is its own.
    pub fn finish(self) -> (r: Result<Template, PlanError>)
        requires
            plan_wf(self@),
        ensures
            resolve(self@) is Err ==> (r matches Err(e) && e == resolve(self@)->Err_0),
            r matches Ok(t) ==> resolve(self@) is Ok && finished_template(
                self@,
                resolve(self@)->Ok_0,
                t,
            ),
            resolve(self@) is Ok && r is Err ==> ({
                let e = r->Err_0;
                ||| e matches PlanError::Compilation { at: PlanSite::Output(_), .. }
                ||| e matches PlanError::Compilation { at: PlanSite::AuxiliaryFunding, .. }
                ||| e matches PlanError::Compilation { at: PlanSite::Fees, .. }
                ||| e is UnknownOrdinalAllocation
                ||| e is Funding
            }),
            resolve(self@) is Ok && self@.ctx.ordinals is None && r is Err ==> ({
                let e = r->Err_0;
                ||| e matches PlanError::Compilation { at: PlanSite::Output(_), .. }
                ||| e is Funding
            }),
            resolve(self@) is Ok && self@.ctx.ordinals is None ==> (r matches Err(
                PlanError::Compilation { at: PlanSite::Output(name), source },
            ) ==> exists|i: int|
                0 <= i < self@.outputs.len() && self@.outputs[i].name@ == name@ && #[trigger] child_failed(
                    self.contract_at(i),
                    self@.ctx,
                    i,
                    source,
                )),
            resolve(self@) is Ok ==> (r matches Err(PlanError::Funding(e)) ==> exists|t: Template|
                #[trigger] finished_layout(self@, resolve(self@)->Ok_0, t) && constraints_check(&t)
                    == Err::<(), FundingError>(e) && forall|i: int|
                    0 <= i < self@.outputs.len() ==> #[trigger] compiled_child(
                        self.contract_at(i),
                        self@.ctx.path,
                        i as u64,
                        t.outputs@[i]@,
                    )),
            resolve(self@) is Ok ==> (r matches Err(PlanError::Funding(e)) ==> self@.minimum_feerate
                is Some && (e is Overflow || e matches FundingError::InvalidConstraints(
                ConstraintFault::FeeCapBelowRate { .. },
            ))),
            resolve(self@) is Ok && self@.ctx.ordinals is None && self.children_fit() && (forall|
                j: int,
            |
                0 <= j < self@.outputs.len() ==> !(#[trigger] self@.ctx.derived.contains(
                    FragmentView::Branch(j as u64),
                ))) && self@.minimum_feerate is None ==> r is Ok,
            resolve(self@) is Ok && self@.ctx.ordinals is None && self.children_fit() && (forall|
                j: int,
            |
                0 <= j < self@.outputs.len() ==> !(#[trigger] self@.ctx.derived.contains(
                    FragmentView::Branch(j as u64),
                ))) ==> (r is Ok || r->Err_0 is Funding),
            resolve(self@) is Ok && self@.ctx.ordinals is None && self.children_fit() && (forall|
                j: int,
            |
                0 <= j < self@.outputs.len() ==> !(#[trigger] self@.ctx.derived.contains(
                    FragmentView::Branch(j as u64),
                ))) && (forall|t: Template|
                #[trigger] finished_layout(self@, resolve(self@)->Ok_0, t) && (forall|i: int|
                    0 <= i < self@.outputs.len() ==> #[trigger] compiled_child(
                        self.contract_at(i),
                        self@.ctx.path,
                        i as u64,
                        t.outputs@[i]@,
                    )) ==> constraints_check(&t) is Ok) ==> r is Ok,
            r matches Ok(t) ==> forall|i: int|
                0 <= i < self@.outputs.len() ==> #[trigger] compiled_child(
                    self.contract_at(i),
                    self@.ctx.path,
                    i as u64,
                    t.outputs@[i]@,
                ),
    {
        let ghost v = self@;
        let ghost orig = self.outputs@;
        let ghost fit = self.children_fit() && (forall|j: int|
            0 <= j < v.outputs.len() ==> !(#[trigger] v.ctx.derived.contains(FragmentView::Branch(j as u64))));
        let res = match self.resolve_plan() {
            Ok(x) => x,
            Err(e) => return Err(e),
        };
        proof {
            lemma_resolution_accounts(v);
            if v.inputs.len() == 1 {
                lemma_budget_single(v.inputs);
            }
        }
        let requirements = requirements_of(&self.inputs);
        let names = names_of(&self.outputs);
        let TemplatePlan {
            ctx,
            inputs,
            outputs,
            reserved_fees: _,
            surplus: _,
            lock_time,
            minimum_feerate,
            metadata,
        } = self;
        let ghost seqs = v.inputs.map_values(|i: InputPlanView| i.sequence);
        assert(inputs@.len() == v.inputs.len());
        assert(v.inputs[0] == input_view(inputs@[0]));
        let mut builder = ctx.template();
        let ghost start = builder@;
        match inputs[0].sequence {
            Some(seq) => {
                builder = match builder.set_sequence(-1, seq) {
                    Ok(b) => b,
                    Err(e) => return Err(
                        PlanError::Compilation {
                            at: PlanSite::Input(inputs[0].requirement.name.clone()),
                            source: e,
                        },
                    ),
                };
            },
            None => {},
        }
        assert(builder@.sequences =~= seqs.take(1));
        let mut index: usize = 1;
        while index < inputs.len()
            invariant
                1 <= index <= inputs@.len(),
                inputs@.len() == v.inputs.len(),
                v.inputs == inputs@.map_values(|i: PlannedInput| input_view(i)),
                seqs == v.inputs.map_values(|i: InputPlanView| i.sequence),
                builder@.sequences == seqs.take(index as int),
                builder@ == (BuilderView { sequences: builder@.sequences, ..start }),
                v == self@,
                resolve(v) == Ok::<Resolution, PlanError>(res),
            decreases inputs@.len() - index,
        {
            assert(v.inputs[index as int] == input_view(inputs@[index as int]));
            builder = builder.add_sequence();
            match inputs[index].sequence {
                Some(seq) => {
                    builder = match builder.set_sequence(-1, seq) {
                        Ok(b) => b,
                        Err(e) => return Err(
                            PlanError::Compilation {
                                at: PlanSite::Input(inputs[index].requirement.name.clone()),
                                source: e,
                            },
                        ),
                    };
                },
                None => {},
            }
            assert(builder@.sequences =~= seqs.take(index + 1));
            index += 1;
        }
        assert(seqs.take(index as int) =~= seqs);
        match lock_time {
            Some(lt) => {
                builder = match builder.set_lock_time(lt) {
                    Ok(b) => b,
                    Err(e) => return Err(
                        PlanError::Compilation { at: PlanSite::TransactionLock, source: e },
                    ),
                };
            },
            None => {},
        }
        let ghost locked = builder@;
        assert(locked.lock_time == v.lock_time);
        let external = res.external;
        let mut external_pending = external != 0;
        if external_pending && builder.ctx().get_ordinals().is_none() {
            builder = match builder.add_amount(external) {
                Ok(b) => b,
                Err(e) => return Err(
                    PlanError::Compilation { at: PlanSite::AuxiliaryFunding, source: e },
                ),
            };
            external_pending = false;
        }
        let ghost ov = v.outputs;
        proof {
            if fit {
                assert forall|i: int, cv: ContextView, cr: Result<Compiled, CompilationError>|
                    0 <= i < outputs@.len() && #[trigger] outputs@[i].contract.compiles_to(cv, cr) implies (
                    cr matches Ok(c) && c.required_input_amount <= cv.funds) by {
                    assert(self.contract_at(i) == outputs@[i].contract);
                }
            }
            assert(v.ctx.derived + branch_seq(0) =~= v.ctx.derived);
        }
        let mut k: usize = 0;
        while k < outputs.len()
            invariant
                k <= outputs@.len(),
                ov == outputs@.map_values(|o: PlannedOutput<'a, C>| output_view(o)),
                resolve(v) == Ok::<Resolution, PlanError>(res),
                v == self@,
                v.inputs.len() >= 1,
                builder_conserves(builder@),
                builder@.sequences == locked.sequences,
                builder@.lock_time == locked.lock_time,
                builder@.version == 2,
                builder@.fees == 0,
                builder@.min_feerate is None,
                builder@.label is None,
                builder@.color is None,
                builder@.initial_funding == v.inputs[0].minimum,
                builder@.outputs.len() == k,
                forall|j: int|
                    0 <= j < k ==> #[trigger] builder@.outputs[j].amount == resolved_amount(
                        ov[j],
                        res.remainder,
                    ),
                outputs_total(builder@.outputs) == amounts_before(ov, res.remainder, k as int),
                external_pending ==> builder@.external_funding == 0,
                !external_pending ==> builder@.external_funding == external,
                builder@.ctx.path == v.ctx.path,
                v.ctx.ordinals is None ==> (!external_pending && builder@.ctx.ordinals is None),
                orig == outputs@,
                orig == self.outputs@,
                builder@.ctx.derived == v.ctx.derived + branch_seq(k as int),
                external == res.external,
                plan_wf(v),
                ov == v.outputs,
                fit == (self.children_fit() && (forall|j: int|
                    0 <= j < v.outputs.len() ==> !(#[trigger] v.ctx.derived.contains(FragmentView::Branch(j as u64))))),
                fit ==> forall|j: int|
                    0 <= j < v.outputs.len() ==> !(#[trigger] v.ctx.derived.contains(FragmentView::Branch(j as u64))),
                fit ==> forall|i: int, cv: ContextView, cr: Result<Compiled, CompilationError>|
                    0 <= i < outputs@.len() && #[trigger] outputs@[i].contract.compiles_to(cv, cr) ==> (
                    cr matches Ok(c) && c.required_input_amount <= cv.funds),
                forall|j: int|
                    0 <= j < k ==> #[trigger] compiled_child(
                        outputs@[j].contract,
                        v.ctx.path,
                        j as u64,
                        builder@.outputs[j],
                    ),
            decreases outputs@.len() - k,
        {
            assert(ov[k as int] == output_view(outputs@[k as int]));
            if external_pending && builder.ctx().funds() == 0 {
                builder = match builder.add_amount(external) {
                    Ok(b) => b,
                    Err(e) => return Err(
                        PlanError::Compilation { at: PlanSite::AuxiliaryFunding, source: e },
                    ),
                };
                external_pending = false;
            }
            let amount = amount_of(&outputs[k], res.remainder);
            if external_pending && amount > builder.ctx().funds() {
                return Err(
                    PlanError::UnknownOrdinalAllocation {
                        at: PlanSite::Output(outputs[k].name.clone()),
                        tracked_remaining: builder.ctx().funds(),
                    },
                );
            }
            let ghost prior = builder@;
            proof {
                if v.ctx.ordinals is None {
                    lemma_resolution_accounts(v);
                    lemma_amounts_before_monotone(ov, res.remainder, k + 1, ov.len() as int);
                    assert(amounts_before(ov, res.remainder, k + 1) == amounts_before(
                        ov,
                        res.remainder,
                        k as int,
                    ) + amount);
                    assert(builder@.ctx.funds >= amount);
                    if prior.ctx.derived.contains(FragmentView::Branch(k as u64)) {
                        let idx = choose|idx: int|
                            0 <= idx < prior.ctx.derived.len() && prior.ctx.derived[idx]
                                == FragmentView::Branch(k as u64);
                        if idx < v.ctx.derived.len() {
                            assert(v.ctx.derived[idx] == FragmentView::Branch(k as u64));
                            assert(v.ctx.derived.contains(FragmentView::Branch(k as u64)));
                        } else {
                            assert(branch_seq(k as int)[idx - v.ctx.derived.len()] == FragmentView::Branch(
                                (idx - v.ctx.derived.len()) as u64,
                            ));
                        }
                    }
                }
            }
            builder = match builder.add_output(amount, outputs[k].contract) {
                Ok(b) => b,
                Err(e) => {
                    proof {
                        if v.ctx.ordinals is None {
                            assert(self.contract_at(k as int) == outputs@[k as int].contract);
                            assert(v.outputs[k as int].name == outputs@[k as int].name);
                            assert(child_failed(self.contract_at(k as int), v.ctx, k as int, e));
                        }
                    }
                    return Err(
                        PlanError::Compilation { at: PlanSite::Output(outputs[k].name.clone()), source: e },
                    );
                },
            };
            assert(builder@.outputs.drop_last() =~= prior.outputs);
            assert(builder@.ctx.derived =~= v.ctx.derived + branch_seq(k + 1));
            assert forall|j: int| 0 <= j < k + 1 implies #[trigger] builder@.outputs[j].amount
                == resolved_amount(ov[j], res.remainder) by {
                if j < k {
                    assert(builder@.outputs[j] == prior.outputs[j]);
                }
            }
            assert forall|j: int| 0 <= j < k + 1 implies #[trigger] compiled_child(
                outputs@[j].contract,
                v.ctx.path,
                j as u64,
                builder@.outputs[j],
            ) by {
                if j < k {
                    assert(builder@.outputs[j] == prior.outputs[j]);
                }
            }
            k += 1;
        }
        if external_pending {
            if builder.ctx().funds() != 0 {
                return Err(
                    PlanError::UnknownOrdinalAllocation {
                        at: PlanSite::Fees,
                        tracked_remaining: builder.ctx().funds(),
                    },
                );
            }
            builder = match builder.add_amount(external) {
                Ok(b) => b,
                Err(e) => return Err(
                    PlanError::Compilation { at: PlanSite::AuxiliaryFunding, source: e },
                ),
            };
        }
        let ghost built = builder@.outputs;
        let funded = match builder.add_fees(res.fees) {
            Ok(b) => b,
            Err(e) => return Err(PlanError::Compilation { at: PlanSite::Fees, source: e }),
        };
        let mut template = funded.into_template();
        template.metadata = metadata;
        template.funding_constraints = Some(
            FundingConstraints {
                inputs: requirements,
                outputs: names,
                maximum_fee: res.maximum_fee,
                minimum_feerate,
            },
        );
        proof {
            assert(template.funding_constraints->Some_0.inputs@ =~= v.inputs.map_values(
                |i: InputPlanView| InputRequirement { name: i.name, minimum: i.minimum },
            ));
            assert(template.funding_constraints->Some_0.outputs@ =~= v.outputs.map_values(
                |o: OutputPlanView| o.name,
            ));
            assert(template.sequences@ =~= v.inputs.map_values(
                |i: InputPlanView| sequence_value(i.sequence),
            ));
            assert forall|i: int| 0 <= i < v.outputs.len() implies #[trigger] template.outputs@[i].amount
                == resolved_amount(v.outputs[i], res.remainder) by {
                assert(output_views(template.outputs@)[i] == template.outputs@[i]@);
                assert(built[i].amount == resolved_amount(ov[i], res.remainder));
            }
            assert forall|i: int| 0 <= i < v.outputs.len() implies #[trigger] compiled_child(
                self.contract_at(i),
                v.ctx.path,
                i as u64,
                template.outputs@[i]@,
            ) by {
                assert(output_views(template.outputs@)[i] == template.outputs@[i]@);
                assert(built[i] == template.outputs@[i]@);
                assert(self.contract_at(i) == outputs@[i].contract);
            }
        }
        proof {
            let c = template.funding_constraints->Some_0;
            let n = v.inputs.len() as int;
            assert(c.inputs@ == plan_requirements(v.inputs));
            lemma_budget_is_minimums(v.inputs, n);
            assert(plan_requirements(v.inputs).take(n) =~= plan_requirements(v.inputs));
            assert(requirement_names(c.inputs@) =~= input_names(v.inputs));
            assert(string_views(c.outputs@) =~= output_names(v.outputs));
            assert(names_valid(requirement_names(c.inputs@)));
            assert(names_valid(string_views(c.outputs@)));
            assert(c.inputs@[0].minimum == v.inputs[0].minimum);
            lemma_outputs_match_amounts(v, res, template);
            lemma_amounts_before_nonneg(v.outputs, res.remainder, v.outputs.len() as int);
            assert(template.max == res.budget);
            assert(template.required_input_amount == v.inputs[0].minimum);
        }
        assert(finished_layout(v, res, template));
        match template.validate_funding_constraints() {
            Ok(_) => Ok(template),
            Err(e) => Err(PlanError::Funding(e)),
        }
    }
}


/// A finished plan's template is funded, input by input, by exactly the
/// minimums the plan declared: funding each input with its minimum is
/// accepted, nothing is missing, and the fee paid is the fee the plan
/// resolved.
pub proof fn lemma_finished_plan_funds_at_minimums(v: PlanView, t: Template)
    requires
        plan_wf(v),
        resolve(v) is Ok,
        finished_template(v, resolve(v)->Ok_0, t),
    ensures
        funding_check(&t, minimum_amounts(t.funding_constraints->Some_0.inputs@)) == Ok::<
            (int, Seq<usize>, Option<u64>),
            FundingError,
        >((resolve(v)->Ok_0.budget as int, Seq::empty(), Some(resolve(v)->Ok_0.fees))),
{
    let res = resolve(v)->Ok_0;
    lemma_resolution_accounts(v);
    lemma_minimum_funding_accepted(t);
    lemma_outputs_match_amounts(v, res, t);
}

proof fn lemma_outputs_match_amounts(v: PlanView, res: Resolution, t: Template)
    requires
        t.outputs@.len() == v.outputs.len(),
        forall|i: int|
            0 <= i < v.outputs.len() ==> #[trigger] t.outputs@[i].amount == resolved_amount(
                v.outputs[i],
                res.remainder,
            ),
    ensures
        template_outputs_total(&t) == amounts_before(v.outputs, res.remainder, v.outputs.len() as int),
{
    lemma_prefix_totals(v, res, t, v.outputs.len() as int);
    assert(output_views(t.outputs@).take(v.outputs.len() as int) =~= output_views(t.outputs@));
}

proof fn lemma_prefix_totals(v: PlanView, res: Resolution, t: Template, k: int)
    requires
        0 <= k <= v.outputs.len(),
        t.outputs@.len() == v.outputs.len(),
        forall|i: int|
            0 <= i < v.outputs.len() ==> #[trigger] t.outputs@[i].amount == resolved_amount(
                v.outputs[i],
                res.remainder,
            ),
    ensures
        outputs_total(output_views(t.outputs@).take(k)) == amounts_before(v.outputs, res.remainder, k),
    decreases k,
{
    if k > 0 {
        lemma_prefix_totals(v, res, t, k - 1);
        assert(output_views(t.outputs@).take(k).drop_last() =~= output_views(t.outputs@).take(k - 1));
        assert(output_views(t.outputs@)[k - 1] == t.outputs@[k - 1]@);
    } else {
        assert(output_views(t.outputs@).take(0) =~= Seq::<OutputView>::empty());
    }
}

} // verus!
