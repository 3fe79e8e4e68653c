//! Executing an ordinal output plan against a builder.
use vstd::prelude::*;
use crate::builder::{
    AddingFees, BuilderState, BuilderView, Compilable, Compiled, OutputView, builder_conserves,
    compiled_child, lemma_outputs_total_nonneg,
};
use crate::context::{Context, ContextView, FragmentView, allocate_spec, ordinals_view};
use crate::plan::branch_seq;
use crate::error::{CompilationError, OrdinalsFault};
use crate::ordinals::{ORDINAL_PADDING, Ordinal, OrdinalsInfo, Plan, PlanStep, total_spec};

verus! {

/// The output amounts a sequence of steps creates, in order.
pub open spec fn step_outputs(steps: Seq<PlanStep>) -> Seq<u64>
    decreases steps.len(),
{
    if steps.len() == 0 {
        Seq::empty()
    } else {
        let rest = step_outputs(steps.drop_last());
        match steps.last() {
            PlanStep::Change(a) => rest.push(a),
            PlanStep::Payout(a) => rest.push(a),
            PlanStep::Ordinal(_) => rest.push((ORDINAL_PADDING + 1) as u64),
            _ => rest,
        }
    }
}

/// Sum of the auxiliary inputs a sequence of steps adds.
pub open spec fn step_payins(steps: Seq<PlanStep>) -> int
    decreases steps.len(),
{
    if steps.len() == 0 {
        0
    } else {
        step_payins(steps.drop_last()) + match steps.last() {
            PlanStep::PayIn(a) => a as int,
            _ => 0,
        }
    }
}

/// Number of auxiliary inputs a sequence of steps adds.
pub open spec fn step_payin_count(steps: Seq<PlanStep>) -> int
    decreases steps.len(),
{
    if steps.len() == 0 {
        0
    } else {
        step_payin_count(steps.drop_last()) + match steps.last() {
            PlanStep::PayIn(_) => 1int,
            _ => 0,
        }
    }
}

/// The amounts of a builder's outputs.
pub open spec fn output_amounts(s: Seq<OutputView>) -> Seq<u64> {
    s.map_values(|o: OutputView| o.amount)
}

/// The first ordinal still tracked in a context: the start of its first
/// nonempty range.
pub open spec fn next_tracked(ranges: Option<Seq<(u64, u64)>>) -> Option<u64> {
    match ranges {
        None => None,
        Some(r) => first_nonempty(r),
    }
}

/// The start of the first nonempty range.
pub open spec fn first_nonempty(r: Seq<(u64, u64)>) -> Option<u64>
    decreases r.len(),
{
    if r.len() == 0 {
        None
    } else if r[0].0 < r[0].1 {
        Some(r[0].0)
    } else {
        first_nonempty(r.drop_first())
    }
}

fn first_start(info: &OrdinalsInfo) -> (r: Option<u64>)
    ensures
        r == first_nonempty(info@),
{
    let mut i: usize = 0;
    assert(info@.skip(0) =~= info@);
    while i < info.0.len()
        invariant
            i <= info@.len(),
            first_nonempty(info@) == first_nonempty(info@.skip(i as int)),
        decreases info@.len() - i,
    {
        let (start, end) = info.0[i];
        assert(info@.skip(i as int)[0] == info@[i as int]);
        assert(info@.skip(i as int).drop_first() =~= info@.skip(i + 1));
        if start.0 < end.0 {
            return Some(start.0);
        }
        i += 1;
    }
    None
}

/// What a successful execution of `steps` in context `ctx` built: the
/// outputs of the steps before the first fee, in order, and that fee, with
/// every sat allocated.
pub open spec fn executed(steps: Seq<PlanStep>, funds: u64, b: BuilderView) -> bool {
    exists|f: int|
        0 <= f < steps.len() && (#[trigger] steps[f]) is Fee && (forall|i: int|
            0 <= i < f ==> !(#[trigger] steps[i] is Fee)) && output_amounts(b.outputs)
            == step_outputs(steps.take(f)) && b.fees == steps[f]->Fee_0 && b.ctx.funds == 0
            && b.initial_funding == funds && b.external_funding == step_payins(steps.take(f))
            && b.sequences.len() == 1 + step_payin_count(steps.take(f)) && builder_conserves(b)
}

/// Payout destinations as values: each amount with the contracts still
/// waiting for it, the last one first in line.
pub open spec fn payout_view<'a, C: ?Sized>(p: Seq<(u64, Vec<&'a C>)>) -> Seq<(u64, Seq<&'a C>)> {
    p.map_values(|e: (u64, Vec<&'a C>)| (e.0, e.1@))
}

/// Entry `j` is the first one for amount `a`.
pub open spec fn first_payout_entry<'a, C: ?Sized>(
    p: Seq<(u64, Seq<&'a C>)>,
    a: u64,
    j: int,
) -> bool {
    0 <= j < p.len() && p[j].0 == a && forall|m: int| 0 <= m < j ==> #[trigger] p[m].0 != a
}

/// Entry `j` is the first one for the ordinal numbered `n`.
pub open spec fn first_ordinal_entry<'a, C: ?Sized>(o: Seq<(Ordinal, &'a C)>, n: u64, j: int) -> bool {
    0 <= j < o.len() && o[j].0.0 == n && forall|m: int| 0 <= m < j ==> #[trigger] o[m].0.0 != n
}

/// Where one step sends its output (`None` for a step that creates none)
/// and the destinations left after it; `None` when its destination is
/// missing. A payout takes the last contract of the first entry for its
/// amount; an ordinal takes, and removes, the first entry for its number.
pub open spec fn route_step<'a, C: ?Sized>(
    step: PlanStep,
    p: Seq<(u64, Seq<&'a C>)>,
    o: Seq<(Ordinal, &'a C)>,
    change: &'a C,
) -> Option<(Option<&'a C>, Seq<(u64, Seq<&'a C>)>, Seq<(Ordinal, &'a C)>)> {
    match step {
        PlanStep::Change(_) => Some((Some(change), p, o)),
        PlanStep::Payout(a) => if exists|j: int| first_payout_entry(p, a, j) {
            let j = choose|j: int| first_payout_entry(p, a, j);
            if p[j].1.len() == 0 {
                None
            } else {
                Some((Some(p[j].1.last()), p.update(j, (a, p[j].1.drop_last())), o))
            }
        } else {
            None
        },
        PlanStep::Ordinal(n) => if exists|j: int| first_ordinal_entry(o, n.0, j) {
            let j = choose|j: int| first_ordinal_entry(o, n.0, j);
            Some((Some(o[j].1), p, o.remove(j)))
        } else {
            None
        },
        _ => Some((None, p, o)),
    }
}

/// The destination of each output the steps create, in order, with the
/// destinations left after them; `None` when a step's destination is
/// missing.
pub open spec fn route<'a, C: ?Sized>(
    steps: Seq<PlanStep>,
    p: Seq<(u64, Seq<&'a C>)>,
    o: Seq<(Ordinal, &'a C)>,
    change: &'a C,
) -> Option<(Seq<&'a C>, Seq<(u64, Seq<&'a C>)>, Seq<(Ordinal, &'a C)>)>
    decreases steps.len(),
{
    if steps.len() == 0 {
        Some((Seq::empty(), p, o))
    } else {
        match route(steps.drop_last(), p, o, change) {
            None => None,
            Some((d, p1, o1)) => match route_step(steps.last(), p1, o1, change) {
                None => None,
                Some((x, p2, o2)) => Some(
                    (
                        match x {
                            Some(c) => d.push(c),
                            None => d,
                        },
                        p2,
                        o2,
                    ),
                ),
            },
        }
    }
}

/// Each output of `b` is the compiled child of the destination the steps
/// before the first fee route it to, at its index under `path`, and those
/// steps use up every destination.
pub open spec fn routed<'a, C: Compilable + ?Sized>(
    steps: Seq<PlanStep>,
    p: Seq<(u64, Seq<&'a C>)>,
    o: Seq<(Ordinal, &'a C)>,
    change: &'a C,
    path: Seq<FragmentView>,
    b: BuilderView,
) -> bool {
    exists|f: int|
        #![trigger steps[f]]
        {
            &&& 0 <= f < steps.len()
            &&& steps[f] is Fee
            &&& forall|i: int| 0 <= i < f ==> !(#[trigger] steps[i] is Fee)
            &&& route(steps.take(f), p, o, change) matches Some((d, pl, ol))
            &&& ol.len() == 0
            &&& forall|m: int| 0 <= m < pl.len() ==> (#[trigger] pl[m]).1.len() == 0
            &&& d.len() == b.outputs.len()
            &&& forall|j: int|
                0 <= j < d.len() ==> #[trigger] compiled_child(d[j], path, j as u64, b.outputs[j])
        }
}

/// A contract that compiles, in any context, to a result requiring no more
/// than the context's funds.
pub open spec fn always_fits<C: Compilable + ?Sized>(c: &C) -> bool {
    forall|cv: ContextView, cr: Result<Compiled, CompilationError>|
        #[trigger] c.compiles_to(cv, cr) ==> (cr matches Ok(x) && x.required_input_amount <= cv.funds)
}

/// What adding an output of `a` sats does to the funds left and the
/// tracked ranges: the funds must cover it, and tracked ranges must cover
/// it from their start.
pub open spec fn output_outcome(f: int, ranges: Option<Seq<(u64, u64)>>, a: int) -> Result<
    (int, Option<Seq<(u64, u64)>>),
    CompilationError,
> {
    if f < a {
        Err(CompilationError::OutOfFunds)
    } else {
        match ranges {
            None => Ok((f - a, None)),
            Some(o) => match allocate_spec(o, a) {
                Err(e) => Err(CompilationError::OrdinalsError(e)),
                Ok((_, y)) => Ok((f - a, Some(y))),
            },
        }
    }
}

/// What one step other than the fee does to a running plan's state: the
/// funds left, the total funding, the tracked ranges, and the payout and
/// ordinal destinations still waiting; or the error it stops with, when
/// every child it compiles fits its output.
pub open spec fn run_step<'a, C: ?Sized>(
    step: PlanStep,
    s: (int, int, Option<Seq<(u64, u64)>>, Seq<(u64, Seq<&'a C>)>, Seq<(Ordinal, &'a C)>),
    change: &'a C,
) -> Result<
    (int, int, Option<Seq<(u64, u64)>>, Seq<(u64, Seq<&'a C>)>, Seq<(Ordinal, &'a C)>),
    CompilationError,
> {
    let (f, t, rg, p, o) = s;
    match step {
        PlanStep::Fee(_) => Ok(s),
        PlanStep::PayIn(a) => if t + a > u64::MAX {
            Err(CompilationError::OutOfFunds)
        } else if f + a > u64::MAX {
            Err(CompilationError::AvailableFundsOverflow)
        } else if a != 0 && rg is Some && (f != 0 || rg->Some_0.len() != 0) {
            Err(CompilationError::OrdinalsError(OrdinalsFault::TrackedSatsRemain))
        } else {
            Ok((
                f + a,
                t + a,
                if a != 0 {
                    None
                } else {
                    rg
                },
                p,
                o,
            ))
        },
        PlanStep::Ordinal(n) => if next_tracked(rg) != Some(n.0) {
            Err(CompilationError::OrdinalsError(OrdinalsFault::OrdinalPositionMismatch))
        } else {
            match route_step(step, p, o, change) {
                None => Err(CompilationError::OrdinalsError(OrdinalsFault::MissingOrdinalDestination)),
                Some((_, p2, o2)) => match output_outcome(f, rg, ORDINAL_PADDING + 1) {
                    Err(e) => Err(e),
                    Ok((f2, rg2)) => Ok((f2, t, rg2, p2, o2)),
                },
            }
        },
        PlanStep::Change(a) => match output_outcome(f, rg, a as int) {
            Err(e) => Err(e),
            Ok((f2, rg2)) => Ok((f2, t, rg2, p, o)),
        },
        PlanStep::Payout(a) => match route_step(step, p, o, change) {
            None => Err(CompilationError::OrdinalsError(OrdinalsFault::MissingPayoutDestination)),
            Some((_, p2, o2)) => match output_outcome(f, rg, a as int) {
                Err(e) => Err(e),
                Ok((f2, rg2)) => Ok((f2, t, rg2, p2, o2)),
            },
        },
    }
}

/// The state after the first `k` steps, or the first error among them.
pub open spec fn run_to<'a, C: ?Sized>(
    steps: Seq<PlanStep>,
    s0: (int, int, Option<Seq<(u64, u64)>>, Seq<(u64, Seq<&'a C>)>, Seq<(Ordinal, &'a C)>),
    change: &'a C,
    k: int,
) -> Result<
    (int, int, Option<Seq<(u64, u64)>>, Seq<(u64, Seq<&'a C>)>, Seq<(Ordinal, &'a C)>),
    CompilationError,
>
    decreases k,
{
    if k <= 0 {
        Ok(s0)
    } else {
        match run_to(steps, s0, change, k - 1) {
            Err(e) => Err(e),
            Ok(s) => run_step(steps[k - 1], s, change),
        }
    }
}

/// The fee step: it must take exactly the funds left, every destination
/// must be used, and tracked ranges must cover it.
pub open spec fn fee_outcome<'a, C: ?Sized>(
    fee: u64,
    s: (int, int, Option<Seq<(u64, u64)>>, Seq<(u64, Seq<&'a C>)>, Seq<(Ordinal, &'a C)>),
) -> Result<(), CompilationError> {
    let (f, t, rg, p, o) = s;
    if f != fee || !(o.len() == 0 && forall|m: int| 0 <= m < p.len() ==> (#[trigger] p[m]).1.len() == 0) {
        Err(CompilationError::OrdinalsError(OrdinalsFault::PlanNotExhausted))
    } else {
        match rg {
            None => Ok(()),
            Some(r) => match allocate_spec(r, fee as int) {
                Err(e) => Err(CompilationError::OrdinalsError(e)),
                Ok(_) => Ok(()),
            },
        }
    }
}

/// The index of the first fee step, or the number of steps without one.
pub open spec fn first_fee(steps: Seq<PlanStep>) -> int
    decreases steps.len(),
{
    if steps.len() == 0 {
        0
    } else if steps[0] is Fee {
        0
    } else {
        1 + first_fee(steps.drop_first())
    }
}

/// What running the plan in a context with `funds` and tracked `ranges`
/// gives, when every child it compiles fits its output and no child branch
/// was derived before: the checks of the ranges, then each step up to the
/// first fee, then the fee.
pub open spec fn plan_outcome<'a, C: ?Sized>(
    steps: Seq<PlanStep>,
    funds: u64,
    ranges: Option<Seq<(u64, u64)>>,
    p: Seq<(u64, Seq<&'a C>)>,
    o: Seq<(Ordinal, &'a C)>,
    change: &'a C,
) -> Result<(), CompilationError> {
    if ranges is Some && total_spec(ranges->Some_0) is Err {
        Err(CompilationError::OrdinalsError(total_spec(ranges->Some_0)->Err_0))
    } else if ranges is Some && total_spec(ranges->Some_0)->Ok_0 != funds {
        Err(CompilationError::OrdinalsError(OrdinalsFault::FundsMismatch))
    } else {
        let f = first_fee(steps);
        match run_to(steps, (funds as int, funds as int, ranges, p, o), change, f) {
            Err(e) => Err(e),
            Ok(s) => if f >= steps.len() {
                Err(CompilationError::OrdinalsError(OrdinalsFault::MissingFeeStep))
            } else {
                fee_outcome(steps[f]->Fee_0, s)
            },
        }
    }
}

proof fn lemma_run_err_stays<'a, C: ?Sized>(
    steps: Seq<PlanStep>,
    s0: (int, int, Option<Seq<(u64, u64)>>, Seq<(u64, Seq<&'a C>)>, Seq<(Ordinal, &'a C)>),
    change: &'a C,
    k: int,
    m: int,
)
    requires
        0 <= k <= m,
        run_to(steps, s0, change, k) is Err,
    ensures
        run_to(steps, s0, change, m) == run_to(steps, s0, change, k),
    decreases m - k,
{
    if k < m {
        lemma_run_err_stays(steps, s0, change, k, m - 1);
    }
}

proof fn lemma_first_fee(steps: Seq<PlanStep>, j: int)
    requires
        0 <= j <= steps.len(),
        forall|k: int| 0 <= k < j ==> !(#[trigger] steps[k] is Fee),
    ensures
        first_fee(steps) >= j,
        first_fee(steps) <= steps.len(),
        j == steps.len() ==> first_fee(steps) == j,
        j < steps.len() && steps[j] is Fee ==> first_fee(steps) == j,
    decreases j,
{
    if steps.len() > 0 {
        if j > 0 {
            assert(!(steps[0] is Fee));
            let rest = steps.drop_first();
            assert forall|k: int| 0 <= k < j - 1 implies !(#[trigger] rest[k] is Fee) by {
                assert(rest[k] == steps[k + 1]);
            }
            lemma_first_fee(rest, j - 1);
            if j < steps.len() {
                assert(rest[j - 1] == steps[j]);
            }
        } else {
            lemma_first_fee_bound(steps);
        }
    }
}

proof fn lemma_first_fee_bound(steps: Seq<PlanStep>)
    ensures
        0 <= first_fee(steps) <= steps.len(),
    decreases steps.len(),
{
    if steps.len() > 0 && !(steps[0] is Fee) {
        lemma_first_fee_bound(steps.drop_first());
    }
}

proof fn lemma_fresh_branch(derived: Seq<FragmentView>, n: int, bound: int)
    requires
        0 <= n < bound,
        bound <= u64::MAX,
        forall|j: int| 0 <= j < bound ==> !(#[trigger] derived.contains(FragmentView::Branch(j as u64))),
    ensures
        !(derived + branch_seq(n)).contains(FragmentView::Branch(n as u64)),
{
    let all = derived + branch_seq(n);
    if all.contains(FragmentView::Branch(n as u64)) {
        let idx = choose|idx: int| 0 <= idx < all.len() && all[idx] == FragmentView::Branch(n as u64);
        if idx < derived.len() {
            assert(derived[idx] == FragmentView::Branch(n as u64));
            assert(derived.contains(FragmentView::Branch(n as u64)));
        } else {
            assert(branch_seq(n)[idx - derived.len()] == FragmentView::Branch((idx - derived.len()) as u64));
        }
    }
}

proof fn lemma_payin_count_nonneg(steps: Seq<PlanStep>)
    ensures
        step_payin_count(steps) >= 0,
    decreases steps.len(),
{
    if steps.len() > 0 {
        lemma_payin_count_nonneg(steps.drop_last());
    }
}

proof fn lemma_step_outputs_len(steps: Seq<PlanStep>)
    ensures
        step_outputs(steps).len() <= steps.len(),
    decreases steps.len(),
{
    if steps.len() > 0 {
        lemma_step_outputs_len(steps.drop_last());
    }
}

/// Adding one output that is `dest`'s compiled child, at the next index,
/// extends the routed outputs by `dest`.
proof fn lemma_routed_output<'a, C: Compilable + ?Sized>(
    prior: BuilderView,
    after: BuilderView,
    d: Seq<&'a C>,
    dest: &'a C,
    path: Seq<FragmentView>,
)
    requires
        d.len() == prior.outputs.len(),
        forall|j: int|
            0 <= j < d.len() ==> #[trigger] compiled_child(d[j], path, j as u64, prior.outputs[j]),
        after.outputs.len() == prior.outputs.len() + 1,
        after.outputs.take(prior.outputs.len() as int) == prior.outputs,
        compiled_child(dest, path, prior.outputs.len() as u64, after.outputs.last()),
    ensures
        forall|j: int|
            0 <= j < d.push(dest).len() ==> #[trigger] compiled_child(
                d.push(dest)[j],
                path,
                j as u64,
                after.outputs[j],
            ),
{
    assert forall|j: int| 0 <= j < d.push(dest).len() implies #[trigger] compiled_child(
        d.push(dest)[j],
        path,
        j as u64,
        after.outputs[j],
    ) by {
        if j < d.len() {
            assert(after.outputs[j] == after.outputs.take(prior.outputs.len() as int)[j]);
            assert(d.push(dest)[j] == d[j]);
        }
    }
}

/// A running plan's state as values: the builder's funds left, total
/// funding and tracked ranges, and the destinations still waiting.
pub open spec fn state_of<'a, C: ?Sized>(
    b: BuilderView,
    pending: Seq<(u64, Vec<&'a C>)>,
    pending_ordinals: Seq<(Ordinal, &'a C)>,
) -> (int, int, Option<Seq<(u64, u64)>>, Seq<(u64, Seq<&'a C>)>, Seq<(Ordinal, &'a C)>) {
    (
        b.ctx.funds as int,
        b.initial_funding + b.external_funding,
        b.ctx.ordinals,
        payout_view(pending),
        pending_ordinals,
    )
}

/// The destinations, the change and the context a plan runs with leave
/// nothing to chance: every destination always fits its output, and no
/// child branch was derived before.
pub open spec fn runs_cleanly<'a, C: Compilable + ?Sized>(
    steps: Seq<PlanStep>,
    ctx: ContextView,
    payouts: Seq<(u64, Vec<&'a C>)>,
    ordinals: Seq<(Ordinal, &'a C)>,
    change: &'a C,
) -> bool {
    &&& always_fits(change)
    &&& forall|m: int, t: int|
        0 <= m < payouts.len() && 0 <= t < payouts[m].1@.len() ==> #[trigger] always_fits(payouts[m].1@[t])
    &&& forall|m: int| 0 <= m < ordinals.len() ==> #[trigger] always_fits(ordinals[m].1)
    &&& forall|j: int|
        0 <= j < steps.len() ==> !(#[trigger] ctx.derived.contains(FragmentView::Branch(j as u64)))
}

proof fn lemma_stop<'a, C: ?Sized>(
    steps: Seq<PlanStep>,
    s0: (int, int, Option<Seq<(u64, u64)>>, Seq<(u64, Seq<&'a C>)>, Seq<(Ordinal, &'a C)>),
    change: &'a C,
    i: int,
)
    requires
        0 <= i < steps.len(),
        forall|k: int| 0 <= k <= i ==> !(#[trigger] steps[k] is Fee),
        run_to(steps, s0, change, i + 1) is Err,
    ensures
        run_to(steps, s0, change, first_fee(steps)) == run_to(steps, s0, change, i + 1),
{
    lemma_first_fee(steps, i + 1);
    lemma_run_err_stays(steps, s0, change, i + 1, first_fee(steps));
}

impl Plan {
    /// Build the plan against the actual remaining input ranges and balances.
    ///
    /// Payout destinations are keyed by amount and used from the end of
    /// their list; ordinal destinations are keyed by ordinal. Each key
    /// occurs once, as in a map. Each ordinal step must meet the next ordinal
    /// the context still tracks.
    #[verifier::rlimit(40)]
    pub fn build_plan<'a, C: Compilable + ?Sized>(
        self,
        ctx: Context,
        payouts: Vec<(u64, Vec<&'a C>)>,
        ordinals: Vec<(Ordinal, &'a C)>,
        change: &'a C,
    ) -> (r: Result<BuilderState<AddingFees>, CompilationError>)
        requires
            forall|i: int, j: int|
                0 <= i < j < payouts@.len() ==> #[trigger] payouts@[i].0 != #[trigger] payouts@[j].0,
            forall|i: int, j: int|
                0 <= i < j < ordinals@.len() ==> #[trigger] ordinals@[i].0 != #[trigger] ordinals@[j].0,
        ensures
            ctx@.ordinals is Some && total_spec(ctx@.ordinals->Some_0) is Err ==> r
                == Err::<BuilderState<AddingFees>, CompilationError>(
                CompilationError::OrdinalsError(total_spec(ctx@.ordinals->Some_0)->Err_0),
            ),
            ctx@.ordinals is Some && total_spec(ctx@.ordinals->Some_0) is Ok && total_spec(
                ctx@.ordinals->Some_0,
            )->Ok_0 != ctx@.funds ==> r == Err::<BuilderState<AddingFees>, CompilationError>(
                CompilationError::OrdinalsError(OrdinalsFault::FundsMismatch),
            ),
            r matches Ok(b) ==> executed(self.0@, ctx@.funds, b@),
            r matches Ok(b) ==> routed(
                self.0@,
                payout_view(payouts@),
                ordinals@,
                change,
                ctx@.path,
                b@,
            ),
            runs_cleanly(self.0@, ctx@, payouts@, ordinals@, change) ==> match plan_outcome(
                self.0@,
                ctx@.funds,
                ctx@.ordinals,
                payout_view(payouts@),
                ordinals@,
                change,
            ) {
                Ok(()) => r is Ok,
                Err(e) => r is Err && r->Err_0 == e,
            },
    {
        let ghost p0 = payout_view(payouts@);
        let ghost o0 = ordinals@;
        let ghost fit = runs_cleanly(self.0@, ctx@, payouts@, ordinals@, change);
        match ctx.get_ordinals() {
            Some(ranges) => {
                let t = match ranges.total() {
                    Ok(t) => t,
                    Err(e) => return Err(e),
                };
                if t != ctx.funds() {
                    return Err(CompilationError::OrdinalsError(OrdinalsFault::FundsMismatch));
                }
            },
            None => {},
        }
        let ghost steps = self.0@;
        let ghost cv = ctx@;
        let ghost s0 = (cv.funds as int, cv.funds as int, cv.ordinals, p0, o0);
        let funds = ctx.funds();
        let mut pending = payouts;
        let mut pending_ordinals = ordinals;
        let mut template = ctx.template();
        let mut i: usize = 0;
        while i < self.0.len()
            invariant
                i <= steps.len(),
                steps == self.0@,
                cv == ctx@,
                funds == cv.funds,
                !(cv.ordinals is Some && total_spec(cv.ordinals->Some_0) is Err),
                !(cv.ordinals is Some && total_spec(cv.ordinals->Some_0) is Ok && total_spec(
                    cv.ordinals->Some_0,
                )->Ok_0 != cv.funds),
                builder_conserves(template@),
                template@.fees == 0,
                template@.initial_funding == funds,
                output_amounts(template@.outputs) == step_outputs(steps.take(i as int)),
                template@.external_funding == step_payins(steps.take(i as int)),
                template@.sequences.len() == 1 + step_payin_count(steps.take(i as int)),
                forall|k: int| 0 <= k < i ==> !(#[trigger] steps[k] is Fee),
                template@.ctx.path == cv.path,
                p0 == payout_view(payouts@),
                o0 == ordinals@,
                s0 == (cv.funds as int, cv.funds as int, cv.ordinals, p0, o0),
                template@.ctx.derived == cv.derived + branch_seq(template@.outputs.len() as int),
                output_amounts(template@.outputs).len() == template@.outputs.len(),
                fit == runs_cleanly(steps, cv, payouts@, ordinals@, change),
                fit ==> run_to(steps, s0, change, i as int) == Ok::<
                    (int, int, Option<Seq<(u64, u64)>>, Seq<(u64, Seq<&'a C>)>, Seq<(Ordinal, &'a C)>),
                    CompilationError,
                >(state_of(template@, pending@, pending_ordinals@)),
                fit ==> forall|m: int, t: int|
                    0 <= m < pending@.len() && 0 <= t < pending@[m].1@.len() ==> #[trigger] always_fits(
                        pending@[m].1@[t],
                    ),
                fit ==> forall|m: int|
                    0 <= m < pending_ordinals@.len() ==> #[trigger] always_fits(pending_ordinals@[m].1),
                route(steps.take(i as int), p0, o0, change) matches Some((d, pl, ol)) && pl
                    == payout_view(pending@) && ol == pending_ordinals@ && d.len()
                    == template@.outputs.len() && (forall|j: int|
                    0 <= j < d.len() ==> #[trigger] compiled_child(
                        d[j],
                        cv.path,
                        j as u64,
                        template@.outputs[j],
                    )),
            decreases steps.len() - i,
        {
            let step = self.0[i];
            let ghost prior = template@;
            let ghost st = state_of(template@, pending@, pending_ordinals@);
            assert(steps.take(i + 1).drop_last() =~= steps.take(i as int));
            assert(steps.take(i + 1).last() == steps[i as int]);
            let ghost (d0, pl0, ol0) = route(steps.take(i as int), p0, o0, change)->Some_0;
            let ghost n = template@.outputs.len() as int;
            proof {
                assert(steps[i as int] == step);
                assert(forall|m: int| 0 <= m < pending@.len() ==> #[trigger] pl0[m].0 == pending@[m].0
                    && pl0[m].1 == pending@[m].1@);
                if fit {
                    assert(run_to(steps, s0, change, i + 1) == run_step(steps[i as int], st, change));
                    lemma_step_outputs_len(steps.take(i as int));
                    assert(steps.len() <= u64::MAX);
                    lemma_fresh_branch(cv.derived, n, steps.len() as int);
                    lemma_outputs_total_nonneg(template@.outputs);
                }
            }
            match step {
                PlanStep::Fee(fee) => {
                    let mut exhausted = pending_ordinals.len() == 0;
                    let mut k: usize = 0;
                    while k < pending.len()
                        invariant
                            k <= pending@.len(),
                            exhausted == (pending_ordinals@.len() == 0 && forall|m: int|
                                0 <= m < k ==> (#[trigger] pending@[m]).1@.len() == 0),
                        decreases pending@.len() - k,
                    {
                        if pending[k].1.len() != 0 {
                            exhausted = false;
                        }
                        k += 1;
                    }
                    proof {
                        lemma_first_fee(steps, i as int);
                        assert(exhausted == (ol0.len() == 0 && forall|m: int|
                            0 <= m < pl0.len() ==> (#[trigger] pl0[m]).1.len() == 0)) by {
                            if !exhausted {
                                if pending_ordinals@.len() == 0 {
                                    let m = choose|m: int| 0 <= m < pending@.len() && !((#[trigger] pending@[m]).1@.len() == 0);
                                    assert(pl0[m].1.len() != 0);
                                }
                            } else {
                                assert forall|m: int| 0 <= m < pl0.len() implies (#[trigger] pl0[m]).1.len() == 0 by {
                                    assert(pending@[m].1@.len() == 0);
                                }
                            }
                        }
                    }
                    if template.ctx().funds() != fee || !exhausted {
                        return Err(CompilationError::OrdinalsError(OrdinalsFault::PlanNotExhausted));
                    }
                    let r = template.add_fees(fee);
                    proof {
                        if r is Ok {
                            let b = r->Ok_0;
                            assert(b@.outputs == prior.outputs);
                            assert(output_amounts(b@.outputs) == step_outputs(steps.take(i as int)));
                            assert(b@.fees == fee);
                            assert(b@.ctx.funds == 0);
                            assert(executed(steps, cv.funds, b@));
                            assert forall|j: int| 0 <= j < d0.len() implies #[trigger] compiled_child(
                                d0[j],
                                cv.path,
                                j as u64,
                                b@.outputs[j],
                            ) by {
                                assert(b@.outputs[j] == prior.outputs[j]);
                            }
                            assert(routed(steps, p0, o0, change, cv.path, b@));
                        }
                    }
                    return r;
                },
                PlanStep::Change(amount) => {
                    template = match template.add_output(amount, change) {
                        Ok(b) => b,
                        Err(e) => {
                            proof {
                                if fit {
                                    lemma_stop(steps, s0, change, i as int);
                                }
                            }
                            return Err(e);
                        },
                    };
                    proof {
                        lemma_routed_output(prior, template@, d0, change, cv.path);
                        assert(branch_seq(n + 1) =~= branch_seq(n).push(FragmentView::Branch(n as u64)));
                        assert(template@.ctx.derived =~= cv.derived + branch_seq(n + 1));
                    }
                },
                PlanStep::Payout(amount) => {
                    let mut found: Option<usize> = None;
                    let mut k: usize = 0;
                    while k < pending.len()
                        invariant
                            k <= pending@.len(),
                            found matches Some(j) ==> (j < k && pending@[j as int].0 == amount && forall|m: int|
                                0 <= m < j ==> #[trigger] pending@[m].0 != amount),
                            found is None ==> forall|m: int| 0 <= m < k ==> #[trigger] pending@[m].0 != amount,
                        decreases pending@.len() - k,
                    {
                        if found.is_none() && pending[k].0 == amount {
                            found = Some(k);
                        }
                        k += 1;
                    }
                    let j = match found {
                        Some(j) => j,
                        None => {
                            proof {
                                if exists|x: int| first_payout_entry(pl0, amount, x) {
                                    let x = choose|x: int| first_payout_entry(pl0, amount, x);
                                    assert(pending@[x].0 != amount);
                                }
                                if fit {
                                    lemma_stop(steps, s0, change, i as int);
                                }
                            }
                            return Err(CompilationError::OrdinalsError(OrdinalsFault::MissingPayoutDestination));
                        },
                    };
                    let ghost before = pending@;
                    proof {
                        assert(forall|m: int| 0 <= m < j ==> #[trigger] pl0[m].0 != amount);
                        assert(first_payout_entry(pl0, amount, j as int));
                        let jj = choose|x: int| first_payout_entry(pl0, amount, x);
                        assert(jj == j) by {
                            if jj < j {
                                assert(pl0[jj].0 != amount);
                            }
                            if j < jj {
                                assert(pl0[j as int].0 != amount);
                            }
                        }
                    }
                    let (key, mut targets) = pending.remove(j);
                    let ghost all_targets = targets@;
                    let target = match targets.pop() {
                        Some(t) => t,
                        None => {
                            proof {
                                assert(pl0[j as int].1.len() == 0);
                                if fit {
                                    lemma_stop(steps, s0, change, i as int);
                                }
                            }
                            return Err(CompilationError::OrdinalsError(OrdinalsFault::MissingPayoutDestination));
                        },
                    };
                    pending.insert(j, (key, targets));
                    proof {
                        assert(pl0[j as int] == (key, all_targets));
                        assert(payout_view(pending@) =~= pl0.update(
                            j as int,
                            (amount, pl0[j as int].1.drop_last()),
                        ));
                        if fit {
                            assert(always_fits(before[j as int].1@[all_targets.len() - 1]));
                        }
                    }
                    template = match template.add_output(amount, target) {
                        Ok(b) => b,
                        Err(e) => {
                            proof {
                                if fit {
                                    lemma_stop(steps, s0, change, i as int);
                                }
                            }
                            return Err(e);
                        },
                    };
                    proof {
                        assert(branch_seq(n + 1) =~= branch_seq(n).push(FragmentView::Branch(n as u64)));
                        assert(template@.ctx.derived =~= cv.derived + branch_seq(n + 1));
                        if fit {
                            assert forall|m: int, t: int|
                                0 <= m < pending@.len() && 0 <= t < pending@[m].1@.len() implies #[trigger] always_fits(
                                pending@[m].1@[t],
                            ) by {
                                if m == j {
                                    assert(pending@[m].1@[t] == before[m].1@[t]);
                                } else {
                                    assert(pending@[m] == before[m]);
                                }
                            }
                        }
                        lemma_routed_output(prior, template@, d0, target, cv.path);
                    }
                },
                PlanStep::Ordinal(ordinal) => {
                    let next = match template.ctx().get_ordinals() {
                        Some(info) => first_start(info),
                        None => None,
                    };
                    let matches_next = match next {
                        Some(n) => n == ordinal.0,
                        None => false,
                    };
                    if !matches_next {
                        proof {
                            if fit {
                                lemma_stop(steps, s0, change, i as int);
                            }
                        }
                        return Err(CompilationError::OrdinalsError(OrdinalsFault::OrdinalPositionMismatch));
                    }
                    let mut found: Option<usize> = None;
                    let mut k: usize = 0;
                    while k < pending_ordinals.len()
                        invariant
                            k <= pending_ordinals@.len(),
                            found matches Some(j) ==> (j < k && pending_ordinals@[j as int].0.0 == ordinal.0
                                && forall|m: int| 0 <= m < j ==> #[trigger] pending_ordinals@[m].0.0 != ordinal.0),
                            found is None ==> forall|m: int|
                                0 <= m < k ==> #[trigger] pending_ordinals@[m].0.0 != ordinal.0,
                        decreases pending_ordinals@.len() - k,
                    {
                        if found.is_none() && pending_ordinals[k].0.0 == ordinal.0 {
                            found = Some(k);
                        }
                        k += 1;
                    }
                    let j = match found {
                        Some(j) => j,
                        None => {
                            proof {
                                if exists|x: int| first_ordinal_entry(ol0, ordinal.0, x) {
                                    let x = choose|x: int| first_ordinal_entry(ol0, ordinal.0, x);
                                    assert(pending_ordinals@[x].0.0 != ordinal.0);
                                }
                                if fit {
                                    lemma_stop(steps, s0, change, i as int);
                                }
                            }
                            return Err(CompilationError::OrdinalsError(OrdinalsFault::MissingOrdinalDestination));
                        },
                    };
                    let ghost before_ordinals = pending_ordinals@;
                    proof {
                        assert(first_ordinal_entry(ol0, ordinal.0, j as int));
                        let jj = choose|x: int| first_ordinal_entry(ol0, ordinal.0, x);
                        assert(jj == j) by {
                            if jj < j {
                                assert(ol0[jj].0.0 != ordinal.0);
                            }
                            if j < jj {
                                assert(ol0[j as int].0.0 != ordinal.0);
                            }
                        }
                    }
                    let (_, target) = pending_ordinals.remove(j);
                    proof {
                        if fit {
                            assert(always_fits(before_ordinals[j as int].1));
                        }
                    }
                    template = match template.add_output(ordinal.padding() + 1, target) {
                        Ok(b) => b,
                        Err(e) => {
                            proof {
                                if fit {
                                    lemma_stop(steps, s0, change, i as int);
                                }
                            }
                            return Err(e);
                        },
                    };
                    proof {
                        assert(branch_seq(n + 1) =~= branch_seq(n).push(FragmentView::Branch(n as u64)));
                        assert(template@.ctx.derived =~= cv.derived + branch_seq(n + 1));
                        if fit {
                            assert forall|m: int| 0 <= m < pending_ordinals@.len() implies #[trigger] always_fits(
                                pending_ordinals@[m].1,
                            ) by {
                                if m < j {
                                    assert(pending_ordinals@[m] == before_ordinals[m]);
                                } else {
                                    assert(pending_ordinals@[m] == before_ordinals[m + 1]);
                                }
                            }
                        }
                        lemma_routed_output(prior, template@, d0, target, cv.path);
                    }
                },
                PlanStep::PayIn(amount) => {
                    template = template.add_sequence();
                    proof {
                        lemma_payin_count_nonneg(steps.take(i as int));
                        assert(template@.sequences.len() >= 2);
                    }
                    template = match template.add_amount(amount) {
                        Ok(b) => b,
                        Err(e) => {
                            proof {
                                if fit {
                                    lemma_stop(steps, s0, change, i as int);
                                }
                            }
                            return Err(e);
                        },
                    };
                    assert(template@.outputs == prior.outputs);
                },
            }
            assert(output_amounts(template@.outputs) =~= step_outputs(steps.take(i + 1)));
            i += 1;
        }
        proof {
            lemma_first_fee(steps, steps.len() as int);
        }
        Err(CompilationError::OrdinalsError(OrdinalsFault::MissingFeeStep))
    }
}

} // verus!
