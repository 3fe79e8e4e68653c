//! Interactive transaction template builder: exact funding, output and fee
//! accounting before a template is frozen.
use vstd::prelude::*;
use core::marker::PhantomData;
use crate::context::{Context, ContextView, FragmentView, allocate_spec, spent_view};
use crate::encoding::{varint_len, varint_size};
use crate::error::CompilationError;
use crate::feasibility::{Transaction, TxIn, TxOut, TxView, ctv_hash};
use crate::template::{Template, TemplateMetadata, lock_time_value, sequence_value, template_tx};
use crate::timelocks::{
    AnyAbsTimeLock, AnyRelTimeLock, SEQUENCE_TYPE_FLAG, abs_max, rel_max, same_abs_domain,
    same_rel_domain,
};

verus! {

/// The parts of a compiled child contract that a parent transaction reads.
#[derive(Debug)]
pub struct Compiled {
    /// Minimum amount the child must receive.
    pub required_input_amount: u64,
    /// The child's output script.
    pub script_pubkey: Vec<u8>,
}

impl Compiled {
    /// An equal copy.
    pub fn duplicate(&self) -> (r: Compiled)
        ensures
            r.required_input_amount == self.required_input_amount,
            r.script_pubkey@ == self.script_pubkey@,
    {
        Compiled {
            required_input_amount: self.required_input_amount,
            script_pubkey: self.script_pubkey.clone(),
        }
    }
}

/// Compilable is a trait for anything which can be compiled in a context.
pub trait Compilable {
    /// Whether compiling in a context with this view may give this result.
    spec fn compiles_to(&self, ctx: ContextView, r: Result<Compiled, CompilationError>) -> bool;

    /// Compile a compilable object returning errors, if any.
    fn compile(&self, ctx: Context) -> (r: Result<Compiled, CompilationError>)
        ensures
            self.compiles_to(ctx@, r),
    ;
}

/// An already compiled object compiles to itself.
impl Compilable for Compiled {
    open spec fn compiles_to(&self, ctx: ContextView, r: Result<Compiled, CompilationError>) -> bool {
        r matches Ok(c) && c.required_input_amount == self.required_input_amount
            && c.script_pubkey@ == self.script_pubkey@
    }

    fn compile(&self, ctx: Context) -> (r: Result<Compiled, CompilationError>)
        ensures
            r matches Ok(c) && c.required_input_amount == self.required_input_amount
                && c.script_pubkey@ == self.script_pubkey@,
    {
        Ok(self.duplicate())
    }
}

/// The context a child output is compiled in: the parent's path extended by
/// `Branch(n)`, nothing derived yet, exactly `amount` sats, and the first
/// `amount` sats of tracked ordinal ranges; or why it cannot be made.
pub open spec fn child_context(ctx: ContextView, n: u64, amount: u64) -> Result<
    ContextView,
    CompilationError,
> {
    if ctx.funds < amount {
        Err(CompilationError::OutOfFunds)
    } else {
        let base = ContextView {
            path: ctx.path.push(FragmentView::Branch(n)),
            derived: Seq::empty(),
            funds: amount,
            ..ctx
        };
        match ctx.ordinals {
            None => Ok(base),
            Some(o) => match allocate_spec(o, amount as int) {
                Err(e) => Err(CompilationError::OrdinalsError(e)),
                Ok((x, _)) => Ok(ContextView { ordinals: Some(x), ..base }),
            },
        }
    }
}

/// Output `o` is what compiling `contract` gave at `Branch(n)` under `path`,
/// funded with exactly the output's amount and nothing derived yet: its
/// script is the child's script and its requirement the child's.
pub open spec fn compiled_child<C: Compilable + ?Sized>(
    contract: &C,
    path: Seq<FragmentView>,
    n: u64,
    o: OutputView,
) -> bool {
    exists|cv: ContextView, c: Compiled|
        #![trigger contract.compiles_to(cv, Ok::<Compiled, CompilationError>(c))]
        cv.path == path.push(FragmentView::Branch(n)) && cv.derived == Seq::<FragmentView>::empty()
            && cv.funds == o.amount && contract.compiles_to(cv, Ok::<Compiled, CompilationError>(c))
            && o.required == c.required_input_amount && o.script == c.script_pubkey@
}

/// Accept a child's compiled result as an output of `amount` sats when the
/// child requires no more than that.
pub fn accept_child(amount: u64, compiled: Compiled) -> (r: Result<Output, CompilationError>)
    ensures
        compiled.required_input_amount > amount <==> r == Err::<Output, CompilationError>(
            CompilationError::UnderfundedOutput {
                available: amount,
                required: compiled.required_input_amount,
            },
        ),
        compiled.required_input_amount <= amount ==> (r matches Ok(o) && o.amount == amount
            && o.contract == compiled),
{
    if amount < compiled.required_input_amount {
        return Err(
            CompilationError::UnderfundedOutput {
                available: amount,
                required: compiled.required_input_amount,
            },
        );
    }
    Ok(Output { amount, contract: compiled })
}

/// An output being created: its amount and the compiled receiving contract.
#[derive(Debug)]
pub struct Output {
    /// The amount of sats being sent to this contract.
    pub amount: u64,
    /// The compiled contract this output creates.
    pub contract: Compiled,
}

/// An output as mathematical values.
pub struct OutputView {
    pub amount: u64,
    pub required: u64,
    pub script: Seq<u8>,
}

impl View for Output {
    type V = OutputView;

    open spec fn view(&self) -> OutputView {
        OutputView {
            amount: self.amount,
            required: self.contract.required_input_amount,
            script: self.contract.script_pubkey@,
        }
    }
}

/// The views of a sequence of outputs.
pub open spec fn output_views(s: Seq<Output>) -> Seq<OutputView> {
    s.map_values(|o: Output| o@)
}

/// Sum of output amounts.
pub open spec fn outputs_total(s: Seq<OutputView>) -> int
    decreases s.len(),
{
    if s.len() == 0 {
        0
    } else {
        outputs_total(s.drop_last()) + s.last().amount
    }
}

/// State type tag: outputs may still be added.
pub struct NotAddingFees;

/// State type tag: fees were added, closing output construction.
pub struct AddingFees;

/// The builder's state as mathematical values.
pub struct BuilderView {
    pub sequences: Seq<Option<AnyRelTimeLock>>,
    pub outputs: Seq<OutputView>,
    pub version: i32,
    pub lock_time: Option<AnyAbsTimeLock>,
    pub ctx: ContextView,
    pub initial_funding: u64,
    pub external_funding: u64,
    pub fees: u64,
    pub min_feerate: Option<u64>,
    pub label: Option<Seq<char>>,
    pub color: Option<Seq<char>>,
}

/// The view of an optional string.
pub open spec fn opt_str(s: Option<String>) -> Option<Seq<char>> {
    match s {
        Some(t) => Some(t@),
        None => None,
    }
}

/// Builder can be used to interactively put together a transaction template
/// before finalizing into a Template.
///
/// Funds are debited only by adding outputs or fees, and adding fees closes
/// output construction.
#[derive(Debug)]
pub struct BuilderState<State> {
    sequences: Vec<Option<AnyRelTimeLock>>,
    outputs: Vec<Output>,
    version: i32,
    lock_time: Option<AnyAbsTimeLock>,
    ctx: Context,
    initial_funding: u64,
    external_funding: u64,
    fees: u64,
    min_feerate: Option<u64>,
    label: Option<String>,
    color: Option<String>,
    _pd: PhantomData<State>,
}

/// Start state of a builder.
pub type Builder = BuilderState<NotAddingFees>;

impl<State> View for BuilderState<State> {
    type V = BuilderView;

    closed spec fn view(&self) -> BuilderView {
        BuilderView {
            sequences: self.sequences@,
            outputs: output_views(self.outputs@),
            version: self.version,
            lock_time: self.lock_time,
            ctx: self.ctx@,
            initial_funding: self.initial_funding,
            external_funding: self.external_funding,
            fees: self.fees,
            min_feerate: self.min_feerate,
            label: opt_str(self.label),
            color: opt_str(self.color),
        }
    }
}

/// Every sat the builder was funded with is either still available, sent to
/// an output, or reserved for fees; and the total funding fits in an amount.
pub open spec fn builder_conserves(b: BuilderView) -> bool {
    &&& b.ctx.funds + outputs_total(b.outputs) + b.fees == b.initial_funding + b.external_funding
    &&& b.initial_funding + b.external_funding <= u64::MAX
}

/// The index a possibly negative sequence index names.
pub open spec fn sequence_index(len: int, ii: isize) -> int {
    if ii >= 0 {
        ii as int
    } else {
        len + ii
    }
}

/// What `set_sequence` does to the sequences.
pub open spec fn set_sequence_spec(
    seqs: Seq<Option<AnyRelTimeLock>>,
    ii: isize,
    s: AnyRelTimeLock,
) -> Result<Seq<Option<AnyRelTimeLock>>, CompilationError> {
    let i = sequence_index(seqs.len() as int, ii);
    if i < 0 || i >= seqs.len() {
        Err(CompilationError::NoSuchSequence)
    } else {
        match seqs[i] {
            None => Ok(seqs.update(i, Some(s))),
            Some(old) => if same_rel_domain(old, s) {
                Ok(seqs.update(i, Some(rel_max(old, s))))
            } else {
                Err(CompilationError::IncompatibleSequence)
            },
        }
    }
}

/// What `set_lock_time` does to the lock time.
pub open spec fn set_lock_time_spec(lt: Option<AnyAbsTimeLock>, new: AnyAbsTimeLock) -> Result<
    Option<AnyAbsTimeLock>,
    CompilationError,
> {
    match lt {
        None => Ok(Some(new)),
        Some(old) => if same_abs_domain(old, new) {
            Ok(Some(abs_max(old, new)))
        } else {
            Err(CompilationError::IncompatibleSequence)
        },
    }
}

proof fn lemma_outputs_push(s: Seq<Output>, o: Output)
    ensures
        output_views(s.push(o)) == output_views(s).push(o@),
        outputs_total(output_views(s.push(o))) == outputs_total(output_views(s)) + o.amount,
{
    assert(output_views(s.push(o)) =~= output_views(s).push(o@));
    assert(output_views(s).push(o@).drop_last() =~= output_views(s));
}

impl Context {
    /// A builder for a transaction spending this context's funds.
    pub fn template(self) -> (r: Builder)
        ensures
            r@ == (BuilderView {
                sequences: seq![None],
                outputs: Seq::empty(),
                version: 2,
                lock_time: None,
                ctx: self@,
                initial_funding: self@.funds,
                external_funding: 0,
                fees: 0,
                min_feerate: None,
                label: None,
                color: None,
            }),
            builder_conserves(r@),
    {
        BuilderState::new(self)
    }
}

impl BuilderState<NotAddingFees> {
    /// Creates a new transaction template with 1 input and no outputs.
    pub fn new(ctx: Context) -> (r: Self)
        ensures
            r@ == (BuilderView {
                sequences: seq![None],
                outputs: Seq::empty(),
                version: 2,
                lock_time: None,
                ctx: ctx@,
                initial_funding: ctx@.funds,
                external_funding: 0,
                fees: 0,
                min_feerate: None,
                label: None,
                color: None,
            }),
            builder_conserves(r@),
    {
        let initial_funding = ctx.funds();
        let mut sequences = Vec::new();
        sequences.push(None);
        let r = BuilderState {
            sequences,
            outputs: Vec::new(),
            version: 2,
            lock_time: None,
            ctx,
            initial_funding,
            external_funding: 0,
            fees: 0,
            min_feerate: None,
            label: None,
            color: None,
            _pd: PhantomData,
        };
        assert(r@.sequences =~= seq![None]);
        assert(r@.outputs =~= Seq::<OutputView>::empty());
        r
    }

    /// Get a read-only reference to the builder's context.
    pub fn ctx(&self) -> (r: &Context)
        ensures
            r@ == self@.ctx,
    {
        &self.ctx
    }

    /// Compile a child in a fresh branch context holding exactly `amount`,
    /// check that the child accepts that amount, and debit it.
    ///
    /// The child is compiled at `Branch(n)`, with `n` the number of outputs
    /// already added; its result is whatever its implementation returns.
    pub fn add_output<C: Compilable + ?Sized>(self, amount: u64, contract: &C) -> (r: Result<
        Self,
        CompilationError,
    >)
        requires
            builder_conserves(self@),
        ensures
            self@.ctx.derived.contains(FragmentView::Branch(self@.outputs.len() as u64)) ==> r
                == Err::<Self, CompilationError>(CompilationError::ContexPathAlreadyDerived),
            self@.ctx.funds < amount && !self@.ctx.derived.contains(
                FragmentView::Branch(self@.outputs.len() as u64),
            ) ==> r == Err::<Self, CompilationError>(CompilationError::OutOfFunds),
            r matches Ok(b) ==> {
                &&& builder_conserves(b@)
                &&& b@.outputs.len() == self@.outputs.len() + 1
                &&& b@.outputs.take(self@.outputs.len() as int) == self@.outputs
                &&& b@.outputs.last().amount == amount
                &&& b@.outputs.last().required <= amount
                &&& b@.ctx.funds == self@.ctx.funds - amount
                &&& b@.ctx.derived == self@.ctx.derived.push(
                    FragmentView::Branch(self@.outputs.len() as u64),
                )
                &&& b@.ctx.path == self@.ctx.path
                &&& b@ == (BuilderView { outputs: b@.outputs, ctx: b@.ctx, ..self@ })
                &&& compiled_child(contract, self@.ctx.path, self@.outputs.len() as u64, b@.outputs.last())
                &&& (self@.ctx.ordinals is None ==> b@.ctx.ordinals is None)
            },
            !self@.ctx.derived.contains(FragmentView::Branch(self@.outputs.len() as u64)) ==> match child_context(
                self@.ctx,
                self@.outputs.len() as u64,
                amount,
            ) {
                Err(e) => r == Err::<Self, CompilationError>(e),
                Ok(cv) => exists|cr: Result<Compiled, CompilationError>|
                    #![trigger contract.compiles_to(cv, cr)]
                    contract.compiles_to(cv, cr) && match cr {
                        Err(e) => r == Err::<Self, CompilationError>(e),
                        Ok(c) => if c.required_input_amount > amount {
                            r == Err::<Self, CompilationError>(
                                CompilationError::UnderfundedOutput {
                                    available: amount,
                                    required: c.required_input_amount,
                                },
                            )
                        } else {
                            r matches Ok(b) && b@ == (BuilderView {
                                outputs: self@.outputs.push(
                                    OutputView {
                                        amount,
                                        required: c.required_input_amount,
                                        script: c.script_pubkey@,
                                    },
                                ),
                                ctx: spent_view(
                                    ContextView {
                                        derived: self@.ctx.derived.push(
                                            FragmentView::Branch(self@.outputs.len() as u64),
                                        ),
                                        ..self@.ctx
                                    },
                                    amount,
                                )->Ok_0,
                                ..self@
                            })
                        },
                    },
            },
    {
        let mut ret = self;
        let n = ret.outputs.len() as u64;
        let subctx = match ret.ctx.derive_num(n) {
            Ok(c) => c,
            Err(e) => return Err(e),
        };
        let subctx = match subctx.with_amount(amount) {
            Ok(c) => c,
            Err(e) => return Err(e),
        };
        let ghost child_view = subctx@;
        let compiled = contract.compile(subctx);
        let ghost outcome = compiled;
        let compiled = match compiled {
            Ok(c) => c,
            Err(e) => return Err(e),
        };
        let out = match accept_child(amount, compiled) {
            Ok(o) => o,
            Err(e) => return Err(e),
        };
        let mut ret = match ret.spend_amount(amount) {
            Ok(b) => b,
            Err(e) => return Err(e),
        };
        proof {
            lemma_outputs_push(ret.outputs@, out);
        }
        ret.outputs.push(out);
        assert(ret@.outputs.last() == out@);
        assert(contract.compiles_to(child_view, Ok::<Compiled, CompilationError>(compiled)));
        Ok(ret)
    }
}

impl BuilderState<NotAddingFees> {
    /// Add funds contributed by auxiliary inputs. Add their sequences first.
    /// These funds contribute to the transaction total, not input zero's
    /// required amount.
    pub fn add_amount(self, a: u64) -> (r: Result<Self, CompilationError>)
        requires
            builder_conserves(self@),
        ensures
            r == Err::<Self, CompilationError>(CompilationError::ExternalFundingWithoutInput) <== (a
                != 0 && self@.sequences.len() == 1),
            r == Err::<Self, CompilationError>(CompilationError::OutOfFunds) <== (!(a != 0
                && self@.sequences.len() == 1) && self@.initial_funding + self@.external_funding + a
                > u64::MAX),
            r matches Ok(b) ==> {
                &&& builder_conserves(b@)
                &&& b@.external_funding == self@.external_funding + a
                &&& b@.ctx.funds == self@.ctx.funds + a
                &&& b@.ctx.derived == self@.ctx.derived
                &&& b@.ctx.path == self@.ctx.path
                &&& b@ == (BuilderView { ctx: b@.ctx, external_funding: b@.external_funding, ..self@ })
            },
            !(a != 0 && self@.sequences.len() == 1) && self@.initial_funding
                + self@.external_funding + a <= u64::MAX ==> add_amount_outcome(self@.ctx, a, r),
    {
        if a != 0 && self.sequences.len() == 1 {
            return Err(CompilationError::ExternalFundingWithoutInput);
        }
        let external = match self.external_funding.checked_add(a) {
            Some(e) => e,
            None => return Err(CompilationError::OutOfFunds),
        };
        if self.initial_funding.checked_add(external).is_none() {
            return Err(CompilationError::OutOfFunds);
        }
        let BuilderState {
            sequences,
            outputs,
            version,
            lock_time,
            ctx,
            initial_funding,
            external_funding: _,
            fees,
            min_feerate,
            label,
            color,
            _pd,
        } = self;
        let ctx = match ctx.add_amount(a) {
            Ok(c) => c,
            Err(e) => return Err(e),
        };
        Ok(
            BuilderState {
                sequences,
                outputs,
                version,
                lock_time,
                ctx,
                initial_funding,
                external_funding: external,
                fees,
                min_feerate,
                label,
                color,
                _pd,
            },
        )
    }

    /// Adds another input. Follow with a call to `set_sequence(-1, ...)` to
    /// fill in its lock.
    pub fn add_sequence(self) -> (r: Self)
        ensures
            r@ == (BuilderView { sequences: self@.sequences.push(None), ..self@ }),
    {
        let mut r = self;
        r.sequences.push(None);
        r
    }

    /// Add a height or time based relative lock to an input. A lock already
    /// set must be of the same kind, and the two merge by taking the maximum.
    ///
    /// Negative indexing counts from the back.
    pub fn set_sequence(self, ii: isize, s: AnyRelTimeLock) -> (r: Result<Self, CompilationError>)
        ensures
            match set_sequence_spec(self@.sequences, ii, s) {
                Ok(seqs) => r matches Ok(b) && b@ == (BuilderView { sequences: seqs, ..self@ }),
                Err(e) => r matches Err(f) && f == e,
            },
    {
        let len = self.sequences.len();
        let i: usize = if ii >= 0 {
            ii as usize
        } else {
            let back = (0 - (ii + 1)) as usize;
            if back >= len {
                return Err(CompilationError::NoSuchSequence);
            }
            len - 1 - back
        };
        if i >= len {
            return Err(CompilationError::NoSuchSequence);
        }
        let mut r = self;
        match r.sequences[i] {
            None => {
                r.sequences.set(i, Some(s));
            },
            Some(existing) => match existing.merge(&s) {
                Some(merged) => {
                    r.sequences.set(i, Some(merged));
                },
                None => return Err(CompilationError::IncompatibleSequence),
            },
        }
        Ok(r)
    }

    /// Add a height or time based absolute lock to the template. A lock
    /// already set must be of the same kind, and the two merge by taking the
    /// maximum.
    pub fn set_lock_time(self, lt_in: AnyAbsTimeLock) -> (r: Result<Self, CompilationError>)
        ensures
            match set_lock_time_spec(self@.lock_time, lt_in) {
                Ok(lt) => r matches Ok(b) && b@ == (BuilderView { lock_time: lt, ..self@ }),
                Err(e) => r matches Err(f) && f == e,
            },
    {
        let mut r = self;
        match r.lock_time {
            None => {
                r.lock_time = Some(lt_in);
            },
            Some(existing) => match existing.merge(&lt_in) {
                Some(merged) => {
                    r.lock_time = Some(merged);
                },
                None => return Err(CompilationError::IncompatibleSequence),
            },
        }
        Ok(r)
    }

    /// Overwrite any existing label with the provided string, or set a label
    /// if none was provided so far.
    pub fn set_label(self, label: String) -> (r: Self)
        ensures
            r@ == (BuilderView { label: Some(label@), ..self@ }),
    {
        let mut r = self;
        r.label = Some(label);
        r
    }

    /// Overwrite any existing color with the provided string, or set a color
    /// if none was provided so far.
    pub fn set_color(self, color: String) -> (r: Self)
        ensures
            r@ == (BuilderView { color: Some(color@), ..self@ }),
    {
        let mut r = self;
        r.color = Some(color);
        r
    }
}

/// What adding `a` external sats does to the builder's context.
pub open spec fn add_amount_outcome(
    ctx: ContextView,
    a: u64,
    r: Result<BuilderState<NotAddingFees>, CompilationError>,
) -> bool {
    if ctx.funds + a > u64::MAX {
        r == Err::<BuilderState<NotAddingFees>, CompilationError>(
            CompilationError::AvailableFundsOverflow,
        )
    } else if a != 0 && ctx.ordinals is Some && (ctx.funds != 0 || ctx.ordinals->Some_0.len()
        != 0) {
        r == Err::<BuilderState<NotAddingFees>, CompilationError>(
            CompilationError::OrdinalsError(crate::error::OrdinalsFault::TrackedSatsRemain),
        )
    } else {
        r matches Ok(b) && b@.ctx == ContextView {
            funds: (ctx.funds + a) as u64,
            ordinals: if a != 0 {
                None
            } else {
                ctx.ordinals
            },
            ..ctx
        }
    }
}

impl<State> BuilderState<State> {
    /// Debit funds only while recording an output or explicit fee.
    fn spend_amount(self, amount: u64) -> (r: Result<Self, CompilationError>)
        ensures
            match spent_view(self@.ctx, amount) {
                Err(e) => r == Err::<Self, CompilationError>(e),
                Ok(c) => r matches Ok(b) && b@ == (BuilderView { ctx: c, ..self@ }),
            },
    {
        let BuilderState {
            sequences,
            outputs,
            version,
            lock_time,
            ctx,
            initial_funding,
            external_funding,
            fees,
            min_feerate,
            label,
            color,
            _pd,
        } = self;
        let ctx = match ctx.spend_amount(amount) {
            Ok(c) => c,
            Err(e) => return Err(e),
        };
        Ok(
            BuilderState {
                sequences,
                outputs,
                version,
                lock_time,
                ctx,
                initial_funding,
                external_funding,
                fees,
                min_feerate,
                label,
                color,
                _pd,
            },
        )
    }
}


/// Serialized bytes of one output: value, script length prefix and script.
pub open spec fn output_bytes(o: OutputView) -> int {
    8 + varint_len(o.script.len() as u64) + o.script.len()
}

/// Serialized bytes of a sequence of outputs.
pub open spec fn outputs_bytes(s: Seq<OutputView>) -> int
    decreases s.len(),
{
    if s.len() == 0 {
        0
    } else {
        outputs_bytes(s.drop_last()) + output_bytes(s.last())
    }
}

/// Exact serialized size of an unsigned transaction with `inputs` inputs
/// (empty scriptSigs, no witnesses) and these outputs.
pub open spec fn unsigned_size_spec(inputs: int, outputs: Seq<OutputView>) -> int {
    4 + varint_len(inputs as u64) + inputs * 41 + varint_len(outputs.len() as u64) + outputs_bytes(
        outputs,
    ) + 4
}

/// The unsigned size of a transaction with `inputs` inputs and these
/// outputs, or `None` when it does not fit in a `u64`.
pub(crate) fn checked_unsigned_size(inputs: usize, outputs: &Vec<Output>) -> (r: Option<u64>)
    ensures
        unsigned_size_spec(inputs as int, output_views(outputs@)) >= 0,
        r == (if unsigned_size_spec(inputs as int, output_views(outputs@)) <= u64::MAX {
            Some(unsigned_size_spec(inputs as int, output_views(outputs@)) as u64)
        } else {
            None::<u64>
        }),
{
    let ghost views = output_views(outputs@);
    proof {
        lemma_outputs_bytes_nonneg(views);
    }
    let mut bytes: u64 = 0;
    let mut i: usize = 0;
    while i < outputs.len()
        invariant
            i <= outputs@.len(),
            views == output_views(outputs@),
            bytes == outputs_bytes(views.take(i as int)),
        decreases outputs@.len() - i,
    {
        let size = outputs[i].contract.script_pubkey.len() as u64;
        assert(views[i as int] == outputs@[i as int]@);
        assert(views.take(i + 1).drop_last() =~= views.take(i as int));
        proof {
            lemma_outputs_bytes_prefix(views, i + 1);
            lemma_outputs_bytes_nonneg(views);
        }
        let step = match bytes.checked_add(8) {
            Some(x) => x,
            None => return None,
        };
        let step = match step.checked_add(varint_size(size)) {
            Some(x) => x,
            None => return None,
        };
        bytes = match step.checked_add(size) {
            Some(x) => x,
            None => return None,
        };
        i += 1;
    }
    assert(views.take(i as int) =~= views);
    let n_in = inputs as u64;
    let n_out = outputs.len() as u64;
    let a = match n_in.checked_mul(41) {
        Some(x) => x,
        None => return None,
    };
    let a = match a.checked_add(8 + varint_size(n_in)) {
        Some(x) => x,
        None => return None,
    };
    let a = match a.checked_add(varint_size(n_out)) {
        Some(x) => x,
        None => return None,
    };
    match a.checked_add(bytes) {
        Some(x) => Some(x),
        None => None,
    }
}

proof fn lemma_outputs_bytes_prefix(s: Seq<OutputView>, i: int)
    requires
        0 <= i <= s.len(),
    ensures
        0 <= outputs_bytes(s.take(i)) <= outputs_bytes(s),
    decreases s.len() - i,
{
    if i < s.len() {
        lemma_outputs_bytes_prefix(s, i + 1);
        assert(s.take(i + 1).drop_last() =~= s.take(i));
        lemma_outputs_bytes_nonneg(s.take(i));
    } else {
        assert(s.take(i) =~= s);
        lemma_outputs_bytes_nonneg(s);
    }
}

proof fn lemma_outputs_bytes_nonneg(s: Seq<OutputView>)
    ensures
        outputs_bytes(s) >= 9 * s.len(),
    decreases s.len(),
{
    if s.len() > 0 {
        lemma_outputs_bytes_nonneg(s.drop_last());
    }
}

impl<State> BuilderState<State> {
    /// Reduce the amount available in the builder's context and add it to the
    /// fees, closing output construction.
    pub fn add_fees(self, amount: u64) -> (r: Result<BuilderState<AddingFees>, CompilationError>)
        requires
            builder_conserves(self@),
        ensures
            match spent_view(self@.ctx, amount) {
                Err(e) => r == Err::<BuilderState<AddingFees>, CompilationError>(e),
                Ok(c) => r matches Ok(b) && b@ == (BuilderView {
                    ctx: c,
                    fees: (self@.fees + amount) as u64,
                    ..self@
                }) && builder_conserves(b@),
            },
    {
        let BuilderState {
            sequences,
            outputs,
            version,
            lock_time,
            ctx,
            initial_funding,
            external_funding,
            fees,
            min_feerate,
            label,
            color,
            _pd,
        } = self;
        let s: BuilderState<AddingFees> = BuilderState {
            sequences,
            outputs,
            version,
            lock_time,
            ctx,
            initial_funding,
            external_funding,
            fees,
            min_feerate,
            label,
            color,
            _pd: PhantomData,
        };
        let mut c = match s.spend_amount(amount) {
            Ok(b) => b,
            Err(e) => return Err(e),
        };
        proof {
            lemma_outputs_total_nonneg(c@.outputs);
        }
        c.fees = c.fees + amount;
        Ok(c)
    }

    /// Require at least this many satoshis per virtual byte, retaining the
    /// strongest requirement when called more than once.
    pub fn set_min_feerate(self, a: u64) -> (r: Self)
        ensures
            r@ == (BuilderView {
                min_feerate: Some(
                    match self@.min_feerate {
                        Some(old) => if old < a {
                            a
                        } else {
                            old
                        },
                        None => a,
                    },
                ),
                ..self@
            }),
    {
        let mut r = self;
        let rate = match r.min_feerate {
            Some(old) => if old < a {
                a
            } else {
                old
            },
            None => a,
        };
        r.min_feerate = Some(rate);
        r
    }

    /// Exact serialized size of the current unsigned transaction, in bytes.
    ///
    /// Includes every output's actual script and CompactSize length prefixes.
    /// Inputs have empty scriptSigs and witnesses, so this excludes the SegWit
    /// marker/flag and all future satisfaction data.
    pub fn unsigned_tx_size(&self) -> (r: u64)
        requires
            unsigned_size_spec(self@.sequences.len() as int, self@.outputs) <= u64::MAX,
        ensures
            r == unsigned_size_spec(self@.sequences.len() as int, self@.outputs),
    {
        let inputs = self.sequences.len() as u64;
        let count = self.outputs.len() as u64;
        let mut output_bytes: u64 = 0;
        let mut i: usize = 0;
        proof {
            lemma_outputs_bytes_nonneg(self@.outputs);
        }
        while i < self.outputs.len()
            invariant
                i <= self@.outputs.len(),
                self@.outputs.len() == self.outputs@.len(),
                unsigned_size_spec(self@.sequences.len() as int, self@.outputs) <= u64::MAX,
                output_bytes == outputs_bytes(self@.outputs.take(i as int)),
            decreases self@.outputs.len() - i,
        {
            let size = self.outputs[i].contract.script_pubkey.len() as u64;
            assert(self@.outputs[i as int] == self.outputs@[i as int]@);
            assert(self@.outputs.take(i + 1).drop_last() =~= self@.outputs.take(i as int));
            proof {
                lemma_outputs_bytes_prefix(self@.outputs, i + 1);
            }
            output_bytes = output_bytes + 8 + varint_size(size) + size;
            i += 1;
        }
        assert(self@.outputs.take(i as int) =~= self@.outputs);
        4 + varint_size(inputs) + inputs * 41 + varint_size(count) + output_bytes + 4
    }

    /// Size after appending an output with this script, without allocating it.
    ///
    /// The output value occupies eight bytes regardless of its eventual
    /// amount, and the output-count prefix may widen.
    pub fn unsigned_tx_size_with_output(&self, script_pubkey: &Vec<u8>) -> (r: u64)
        requires
            unsigned_size_spec(self@.sequences.len() as int, self@.outputs) + 9 + 8 + 9
                + script_pubkey@.len() <= u64::MAX,
        ensures
            r == unsigned_size_spec(self@.sequences.len() as int, self@.outputs) + varint_len(
                (self@.outputs.len() + 1) as u64,
            ) - varint_len(self@.outputs.len() as u64) + 8 + varint_len(
                script_pubkey@.len() as u64,
            ) + script_pubkey@.len(),
    {
        let count = self.outputs.len() as u64;
        let size = script_pubkey.len() as u64;
        proof {
            lemma_outputs_bytes_nonneg(self@.outputs);
        }
        let base = self.unsigned_tx_size();
        base + varint_size(count + 1) - varint_size(count) + 8 + varint_size(size) + size
    }
}

pub(crate) proof fn lemma_outputs_total_nonneg(s: Seq<OutputView>)
    ensures
        outputs_total(s) >= 0,
    decreases s.len(),
{
    if s.len() > 0 {
        lemma_outputs_total_nonneg(s.drop_last());
    }
}

/// The unsigned transaction a builder describes: an input per sequence,
/// without a lock as the default sequence, and an output per recorded output.
pub open spec fn builder_tx(b: BuilderView) -> TxView {
    TxView {
        version: b.version,
        lock_time: lock_time_value(b.lock_time),
        inputs: b.sequences.map_values(
            |s: Option<AnyRelTimeLock>| (sequence_value(s), Seq::<u8>::empty()),
        ),
        outputs: b.outputs.map_values(|o: OutputView| (o.amount, o.script)),
    }
}

impl<State> BuilderState<State> {
    /// Creates a transaction from a builder.
    pub fn get_tx(&self) -> (r: Transaction)
        ensures
            r@ == builder_tx(self@),
    {
        let ghost b = self@;
        let mut input: Vec<TxIn> = Vec::new();
        let mut i: usize = 0;
        while i < self.sequences.len()
            invariant
                i <= self.sequences@.len(),
                b == self@,
                input@.map_values(|x: TxIn| (x.sequence, x.script_sig@)) == b.sequences.take(
                    i as int,
                ).map_values(|s: Option<AnyRelTimeLock>| (sequence_value(s), Seq::<u8>::empty())),
            decreases self.sequences@.len() - i,
        {
            let ghost prev = input@;
            let sequence = match self.sequences[i] {
                Some(l) => l.get(),
                None => SEQUENCE_TYPE_FLAG,
            };
            let item = TxIn { sequence, script_sig: Vec::new() };
            assert(item.script_sig@ =~= Seq::<u8>::empty());
            input.push(item);
            assert(input@ == prev.push(item));
            assert(input@.map_values(|x: TxIn| (x.sequence, x.script_sig@)) =~= prev.map_values(
                |x: TxIn| (x.sequence, x.script_sig@),
            ).push((sequence_value(b.sequences[i as int]), Seq::<u8>::empty())));
            assert(b.sequences.take(i + 1) =~= b.sequences.take(i as int).push(b.sequences[i as int]));
            assert(input@.map_values(|x: TxIn| (x.sequence, x.script_sig@)) =~= b.sequences.take(
                i + 1,
            ).map_values(|s: Option<AnyRelTimeLock>| (sequence_value(s), Seq::<u8>::empty())));
            i += 1;
        }
        assert(b.sequences.take(i as int) =~= b.sequences);
        let mut output: Vec<TxOut> = Vec::new();
        let mut j: usize = 0;
        while j < self.outputs.len()
            invariant
                j <= self.outputs@.len(),
                b == self@,
                output@.map_values(|x: TxOut| (x.value, x.script_pubkey@)) == b.outputs.take(
                    j as int,
                ).map_values(|o: OutputView| (o.amount, o.script)),
            decreases self.outputs@.len() - j,
        {
            let ghost prev = output@;
            let copy = self.outputs[j].contract.duplicate();
            let item = TxOut { value: self.outputs[j].amount, script_pubkey: copy.script_pubkey };
            output.push(item);
            assert(output@ == prev.push(item));
            assert(output@.map_values(|x: TxOut| (x.value, x.script_pubkey@)) =~= prev.map_values(
                |x: TxOut| (x.value, x.script_pubkey@),
            ).push((b.outputs[j as int].amount, b.outputs[j as int].script)));
            assert(b.outputs[j as int] == self.outputs@[j as int]@);
            assert(b.outputs.take(j + 1) =~= b.outputs.take(j as int).push(b.outputs[j as int]));
            assert(output@.map_values(|x: TxOut| (x.value, x.script_pubkey@)) =~= b.outputs.take(
                j + 1,
            ).map_values(|o: OutputView| (o.amount, o.script)));
            j += 1;
        }
        assert(b.outputs.take(j as int) =~= b.outputs);
        let lock_time = match self.lock_time {
            Some(l) => l.get(),
            None => 0,
        };
        Transaction { version: self.version, lock_time, input, output }
    }
}

impl<State> BuilderState<State> {
    /// Freeze the builder into a template. Outputs and fees fit within the
    /// checked aggregate input budget; the contract input must supply all of
    /// it except the external funding.
    pub fn into_template(self) -> (t: Template)
        requires
            builder_conserves(self@),
        ensures
            output_views(t.outputs@) == self@.outputs,
            t.max == outputs_total(self@.outputs) + self@.fees,
            t.required_input_amount == (if t.max >= self@.external_funding {
                t.max - self@.external_funding
            } else {
                0
            }),
            t.sequences@ == self@.sequences.map_values(|s: Option<AnyRelTimeLock>| sequence_value(s)),
            t.lock_time == lock_time_value(self@.lock_time),
            t.version == self@.version,
            t.min_feerate_sats_vbyte == self@.min_feerate,
            t.funding_constraints is None,
            template_tx(&t) == builder_tx(self@),
            t.ctv@ == ctv_hash(template_tx(&t), 0),
            t.ctv_index == 0,
    {
        let BuilderState {
            sequences,
            outputs,
            version,
            lock_time,
            ctx: _,
            initial_funding: _,
            external_funding,
            fees,
            min_feerate,
            label,
            color,
            _pd,
        } = self;
        let mut encoded: Vec<u32> = Vec::new();
        let mut i: usize = 0;
        while i < sequences.len()
            invariant
                i <= sequences@.len(),
                encoded@ == sequences@.take(i as int).map_values(
                    |s: Option<AnyRelTimeLock>| sequence_value(s),
                ),
            decreases sequences@.len() - i,
        {
            let value = match sequences[i] {
                Some(l) => l.get(),
                None => SEQUENCE_TYPE_FLAG,
            };
            encoded.push(value);
            assert(encoded@ =~= sequences@.take(i + 1).map_values(
                |s: Option<AnyRelTimeLock>| sequence_value(s),
            ));
            i += 1;
        }
        assert(sequences@.take(i as int) =~= sequences@);
        let mut total: u64 = 0;
        let mut k: usize = 0;
        while k < outputs.len()
            invariant
                k <= outputs@.len(),
                total == outputs_total(output_views(outputs@).take(k as int)),
                outputs_total(output_views(outputs@)) + fees <= u64::MAX,
            decreases outputs@.len() - k,
        {
            assert(output_views(outputs@).take(k + 1).drop_last() =~= output_views(outputs@).take(
                k as int,
            ));
            proof {
                lemma_outputs_total_prefix(output_views(outputs@), k + 1);
            }
            total = total + outputs[k].amount;
            k += 1;
        }
        assert(output_views(outputs@).take(k as int) =~= output_views(outputs@));
        let max = total + fees;
        let required_input_amount = match max.checked_sub(external_funding) {
            Some(r) => r,
            None => 0,
        };
        let lock = match lock_time {
            Some(l) => l.get(),
            None => 0,
        };
        let mut t = Template {
            max,
            required_input_amount,
            min_feerate_sats_vbyte: min_feerate,
            metadata: TemplateMetadata { label, color },
            version,
            lock_time: lock,
            sequences: encoded,
            outputs,
            funding_constraints: None,
            ctv: Vec::new(),
            ctv_index: 0,
        };
        assert(template_tx(&t).inputs =~= builder_tx(self@).inputs);
        assert(template_tx(&t).outputs =~= builder_tx(self@).outputs);
        t.ctv = t.hash();
        t
    }
}


pub(crate) proof fn lemma_outputs_total_prefix(s: Seq<OutputView>, i: int)
    requires
        0 <= i <= s.len(),
    ensures
        0 <= outputs_total(s.take(i)) <= outputs_total(s),
    decreases s.len() - i,
{
    if i < s.len() {
        lemma_outputs_total_prefix(s, i + 1);
        assert(s.take(i + 1).drop_last() =~= s.take(i));
        lemma_outputs_total_nonneg(s.take(i));
    } else {
        assert(s.take(i) =~= s);
        lemma_outputs_total_nonneg(s);
    }
}

} // verus!
