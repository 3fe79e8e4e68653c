//! Error kinds returned by the compiler's checked accounting.
use vstd::prelude::*;

verus! {

/// Why an ordinal range set or ordinal output plan was rejected.
#[derive(Debug, Clone, Copy, PartialEq, Eq, Structural)]
pub enum OrdinalsFault {
    /// Ordinal ranges must be nonempty and non-overlapping.
    InvalidRanges,
    /// Payouts and auxiliary inputs must be positive.
    NonPositiveAmount,
    /// A sum of payouts or of auxiliary inputs overflows.
    AmountSumOverflow,
    /// Known and auxiliary input sats together overflow.
    InputTotalOverflow,
    /// Payouts and fees together overflow.
    PayoutFeeOverflow,
    /// A requested ordinal is not in any supplied range.
    AbsentOrdinal,
    /// Payouts, fees and padded ordinal outputs together overflow.
    PayoutTotalOverflow,
    /// An ordinal's padded output end overflows.
    PositionOverflow,
    /// Known sats do not cover the ordinal's padding.
    PaddingUncovered,
    /// Requested ordinal outputs overlap.
    OverlappingOutputs,
    /// Requested payouts do not fit between ordinal outputs.
    PayoutsDoNotFit,
    /// An ordinal range ends before its start.
    RangeEndsBeforeStart,
    /// Ordinal ranges do not cover the requested amount.
    RangesDoNotCover,
    /// Actual ordinal ranges do not match available funds.
    FundsMismatch,
    /// A plan does not exhaust its funds and payout destinations.
    PlanNotExhausted,
    /// A plan names a payout amount without a destination.
    MissingPayoutDestination,
    /// A planned ordinal is not at the actual next input position.
    OrdinalPositionMismatch,
    /// A plan names an ordinal without a destination.
    MissingOrdinalDestination,
    /// A plan has no final fee step.
    MissingFeeStep,
    /// All tracked sats must be allocated before adding unknown external inputs.
    TrackedSatsRemain,
}

/// A resource whose work limit a policy exceeded.
#[derive(Debug, Clone, Copy, PartialEq, Eq, Structural)]
pub enum PolicyResource {
    /// Spending alternatives after expansion.
    TaprootAlternatives,
    /// Operands across all expanded alternatives.
    ExpandedOperands,
    /// Script bytes across all expanded alternatives.
    ExpandedScriptBytes,
    /// Script bytes declared in the source policy.
    SourceScriptBytes,
    /// Nesting depth of the policy.
    PolicyDepth,
    /// Nodes of the policy.
    PolicyNodes,
    /// Bytes of the encoded scripts of one lowering.
    EncodedScriptBytes,
    /// Branches of one contract.
    ContractBranches,
    /// Script bytes of one contract.
    ContractScriptBytes,
}

/// Why a native policy is malformed.
#[derive(Debug, Clone, Copy, PartialEq, Eq, Structural)]
pub enum PolicyFault {
    /// A conjunction must have exactly two operands.
    NonBinaryAnd,
    /// A choice must have exactly two operands.
    NonBinaryOr,
    /// A threshold must require between one and all of its operands.
    InvalidThreshold,
    /// A relative lock must be nonzero.
    ZeroRelativeLock,
    /// An absolute lock must be nonzero.
    ZeroAbsoluteLock,
}

/// Sapio's core error type, restricted to the failures of the checked logic.
#[derive(Debug, Clone, PartialEq, Eq)]
pub enum CompilationError {
    /// Error if a contract does not have sufficient funds available.
    OutOfFunds,
    /// Issue in the ordinals system.
    OrdinalsError(OrdinalsFault),
    /// Error when a context path has already been derived.
    ContexPathAlreadyDerived,
    /// Adding funds would overflow the available amount.
    AvailableFundsOverflow,
    /// External funding requires an auxiliary input.
    ExternalFundingWithoutInput,
    /// A relative or absolute lock is incompatible with the one already set,
    /// e.g. blocks and time.
    IncompatibleSequence,
    /// A sequence index does not name an input.
    NoSuchSequence,
    /// A covenant predicate remains that only a lowering can resolve.
    UnresolvedEmulation,
    /// A native policy is malformed.
    InvalidPolicy(PolicyFault),
    /// A policy exceeds a work limit.
    PolicyLimit {
        /// The exhausted resource.
        resource: PolicyResource,
        /// Its limit.
        limit: usize,
    },
    /// Metadata already set would be overwritten; names the field.
    OverwriteMetadata(String),
    /// A conditional compilation rule failed, with its diagnostics.
    ConditionalCompilationFailed(Vec<String>),
    /// A required covenant action produced no template.
    MissingTemplates,
    /// A contract compiled to no spending branch at all.
    EmptyPolicy,
    /// A suggested (uncommitted) template carried guards of its own.
    AdditionalGuardsNotAllowedHere,
    /// The pinned internal key is not one of the contract's own bare-key
    /// branches; holds the key's serialized bytes.
    UnauthorizedInternalKey {
        /// The requested key.
        key: Vec<u8>,
    },
    /// An output's amount is below its child's required input amount.
    UnderfundedOutput {
        /// Amount allocated to the output.
        available: u64,
        /// Amount the child contract requires.
        required: u64,
    },
}

} // verus!
