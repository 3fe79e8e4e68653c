//! Deterministic ordinal output planning in transaction input order.
use vstd::prelude::*;
use vstd::multiset::Multiset;
use crate::error::{CompilationError, OrdinalsFault};

verus! {

/// Sats of padding in front of a requested ordinal inside its own output.
pub const ORDINAL_PADDING: u64 = 500;

/// The ordinal number of one satoshi.
#[derive(Debug, Clone, Copy, PartialEq, Eq, Structural)]
pub struct Ordinal(pub u64);

impl Ordinal {
    /// Padding placed before this ordinal in its output.
    pub fn padding(&self) -> (r: u64)
        ensures
            r == ORDINAL_PADDING,
    {
        ORDINAL_PADDING
    }
}

/// Half-open ranges `[start, end)` of ordinals, in transaction input order.
#[derive(Debug)]
pub struct OrdinalsInfo(pub Vec<(Ordinal, Ordinal)>);

impl View for OrdinalsInfo {
    type V = Seq<(u64, u64)>;

    open spec fn view(&self) -> Seq<(u64, u64)> {
        range_values(self.0@)
    }
}

/// The ordinal numbers of ranges of ordinals.
pub open spec fn range_values(v: Seq<(Ordinal, Ordinal)>) -> Seq<(u64, u64)> {
    v.map_values(|r: (Ordinal, Ordinal)| (r.0.0, r.1.0))
}

/// Number of sats in a half-open range.
pub open spec fn range_len(r: (u64, u64)) -> int {
    r.1 - r.0
}

/// Sum of the range lengths.
pub open spec fn ranges_sum(s: Seq<(u64, u64)>) -> int
    decreases s.len(),
{
    if s.len() == 0 {
        0
    } else {
        ranges_sum(s.drop_last()) + range_len(s.last())
    }
}

/// Every range is nonempty and no two ranges overlap.
pub open spec fn ranges_valid(s: Seq<(u64, u64)>) -> bool {
    &&& forall|i: int| 0 <= i < s.len() ==> #[trigger] s[i].0 < s[i].1
    &&& forall|i: int, j: int|
        0 <= i < s.len() && 0 <= j < s.len() && i != j ==> #[trigger] s[i].1 <= #[trigger] s[j].0
            || s[j].1 <= s[i].0
}

/// What `total` returns for these ranges.
pub open spec fn total_spec(s: Seq<(u64, u64)>) -> Result<int, OrdinalsFault> {
    if !ranges_valid(s) {
        Err(OrdinalsFault::InvalidRanges)
    } else {
        Ok(ranges_sum(s))
    }
}

/// Offset of ordinal `o` among the sats of the ranges taken in order, if present.
pub open spec fn position_in(s: Seq<(u64, u64)>, o: u64) -> Option<int>
    decreases s.len(),
{
    if s.len() == 0 {
        None
    } else if s[0].0 <= o < s[0].1 {
        Some(o - s[0].0)
    } else {
        match position_in(s.drop_first(), o) {
            Some(p) => Some(p + range_len(s[0])),
            None => None,
        }
    }
}

proof fn lemma_ranges_sum_prefix(s: Seq<(u64, u64)>, i: int)
    requires
        0 <= i <= s.len(),
        forall|k: int| 0 <= k < s.len() ==> #[trigger] s[k].0 < s[k].1,
    ensures
        ranges_sum(s.take(i)) <= ranges_sum(s),
        ranges_sum(s.take(i)) >= 0,
    decreases s.len() - i,
{
    if i < s.len() {
        lemma_ranges_sum_prefix(s, i + 1);
        assert(s.take(i + 1).drop_last() =~= s.take(i));
        lemma_ranges_sum_nonneg(s.take(i));
    } else {
        assert(s.take(i) =~= s);
        lemma_ranges_sum_nonneg(s);
    }
}

proof fn lemma_ranges_sum_nonneg(s: Seq<(u64, u64)>)
    requires
        forall|k: int| 0 <= k < s.len() ==> #[trigger] s[k].0 < s[k].1,
    ensures
        ranges_sum(s) >= 0,
    decreases s.len(),
{
    if s.len() > 0 {
        lemma_ranges_sum_nonneg(s.drop_last());
    }
}

proof fn lemma_ranges_sum_remove(s: Seq<(u64, u64)>, k: int)
    requires
        0 <= k < s.len(),
    ensures
        ranges_sum(s) == ranges_sum(s.remove(k)) + range_len(s[k]),
    decreases s.len(),
{
    if k == s.len() - 1 {
        assert(s.remove(k) =~= s.drop_last());
    } else {
        lemma_ranges_sum_remove(s.drop_last(), k);
        assert(s.remove(k).drop_last() =~= s.drop_last().remove(k));
        assert(s.remove(k).last() == s.last());
    }
}

proof fn lemma_min_start(s: Seq<(u64, u64)>) -> (k: int)
    requires
        s.len() > 0,
    ensures
        0 <= k < s.len(),
        forall|j: int| 0 <= j < s.len() ==> s[k].0 <= #[trigger] s[j].0,
    decreases s.len(),
{
    if s.len() == 1 {
        0
    } else {
        let k0 = lemma_min_start(s.drop_last());
        if s[k0].0 <= s.last().0 {
            assert forall|j: int| 0 <= j < s.len() implies s[k0].0 <= #[trigger] s[j].0 by {
                if j < s.len() - 1 {
                    assert(s[j] == s.drop_last()[j]);
                }
            }
            k0
        } else {
            assert forall|j: int| 0 <= j < s.len() implies s[s.len() - 1].0 <= #[trigger] s[j].0 by {
                if j < s.len() - 1 {
                    assert(s[j] == s.drop_last()[j]);
                }
            }
            s.len() - 1
        }
    }
}

/// Disjoint nonempty ranges inside `[lo, hi]` hold at most `hi - lo` sats.
proof fn lemma_valid_ranges_measure(s: Seq<(u64, u64)>, lo: int, hi: int)
    requires
        ranges_valid(s),
        lo <= hi,
        forall|i: int| 0 <= i < s.len() ==> lo <= #[trigger] s[i].0 && s[i].1 <= hi,
    ensures
        ranges_sum(s) <= hi - lo,
    decreases s.len(),
{
    if s.len() > 0 {
        let k = lemma_min_start(s);
        let rest = s.remove(k);
        lemma_ranges_sum_remove(s, k);
        assert(s[k].0 < s[k].1);
        assert forall|i: int| 0 <= i < rest.len() implies s[k].1 <= #[trigger] rest[i].0 && rest[i].1
            <= hi by {
            let j = if i < k { i } else { i + 1 };
            assert(rest[i] == s[j]);
            assert(s[j].0 < s[j].1);
            assert(s[k].0 <= s[j].0);
            assert(s[k].1 <= s[j].0 || s[j].1 <= s[k].0);
        }
        assert forall|i: int| 0 <= i < rest.len() implies #[trigger] rest[i].0 < rest[i].1 by {
            let j = if i < k { i } else { i + 1 };
            assert(rest[i] == s[j]);
        }
        assert forall|i: int, m: int|
            0 <= i < rest.len() && 0 <= m < rest.len() && i != m implies #[trigger] rest[i].1
            <= #[trigger] rest[m].0 || rest[m].1 <= rest[i].0 by {
            let j = if i < k { i } else { i + 1 };
            let n = if m < k { m } else { m + 1 };
            assert(rest[i] == s[j]);
            assert(rest[m] == s[n]);
        }
        lemma_valid_ranges_measure(rest, s[k].1 as int, hi);
    }
}

/// The ordinals of valid ranges never sum past the largest amount.
pub proof fn lemma_valid_ranges_total_fits(s: Seq<(u64, u64)>)
    requires
        ranges_valid(s),
    ensures
        ranges_sum(s) <= u64::MAX,
{
    lemma_valid_ranges_measure(s, 0, u64::MAX as int);
}

/// Checked left fold summing positive amounts.
pub open spec fn checked_sum(s: Seq<u64>) -> Result<int, OrdinalsFault>
    decreases s.len(),
{
    if s.len() == 0 {
        Ok(0)
    } else {
        match checked_sum(s.drop_last()) {
            Err(e) => Err(e),
            Ok(t) => if s.last() == 0 {
                Err(OrdinalsFault::NonPositiveAmount)
            } else if t + s.last() > u64::MAX {
                Err(OrdinalsFault::AmountSumOverflow)
            } else {
                Ok(t + s.last())
            },
        }
    }
}

proof fn lemma_checked_sum_bounds(s: Seq<u64>)
    ensures
        checked_sum(s) matches Ok(t) ==> 0 <= t <= u64::MAX,
    decreases s.len(),
{
    if s.len() > 0 {
        lemma_checked_sum_bounds(s.drop_last());
    }
}

fn sum_amounts(amounts: &Vec<u64>) -> (r: Result<u64, OrdinalsFault>)
    ensures
        match checked_sum(amounts@) {
            Ok(t) => r == Ok::<u64, OrdinalsFault>(t as u64),
            Err(e) => r == Err::<u64, OrdinalsFault>(e),
        },
        r matches Ok(t) ==> checked_sum(amounts@) == Ok::<int, OrdinalsFault>(t as int),
        r matches Err(e) ==> checked_sum(amounts@) == Err::<int, OrdinalsFault>(e),
{
    let mut sum: u64 = 0;
    let mut i: usize = 0;
    while i < amounts.len()
        invariant
            i <= amounts.len(),
            checked_sum(amounts@.take(i as int)) == Ok::<int, OrdinalsFault>(sum as int),
        decreases amounts.len() - i,
    {
        assert(amounts@.take(i + 1).drop_last() =~= amounts@.take(i as int));
        let amount = amounts[i];
        if amount == 0 {
            proof {
                lemma_checked_sum_stops(amounts@, i as int + 1);
            }
            return Err(OrdinalsFault::NonPositiveAmount);
        }
        match sum.checked_add(amount) {
            Some(s) => {
                sum = s;
            },
            None => {
                proof {
                    lemma_checked_sum_stops(amounts@, i as int + 1);
                }
                return Err(OrdinalsFault::AmountSumOverflow);
            },
        }
        i += 1;
    }
    assert(amounts@.take(i as int) =~= amounts@);
    Ok(sum)
}

/// Once the fold fails on a prefix, it fails the same way on the whole sequence.
proof fn lemma_checked_sum_stops(s: Seq<u64>, i: int)
    requires
        0 <= i <= s.len(),
        checked_sum(s.take(i)) is Err,
    ensures
        checked_sum(s) == checked_sum(s.take(i)),
    decreases s.len() - i,
{
    if i < s.len() {
        assert(s.take(i + 1).drop_last() =~= s.take(i));
        lemma_checked_sum_stops(s, i + 1);
    } else {
        assert(s.take(i) =~= s);
    }
}

impl OrdinalsInfo {
    /// Sum valid, non-overlapping half-open ranges with checked arithmetic.
    pub fn total(&self) -> (r: Result<u64, CompilationError>)
        ensures
            match total_spec(self@) {
                Ok(t) => t <= u64::MAX && r == Ok::<u64, CompilationError>(t as u64),
                Err(e) => r == Err::<u64, CompilationError>(CompilationError::OrdinalsError(e)),
            },
            r is Ok <==> ranges_valid(self@),
            r matches Ok(t) ==> t == ranges_sum(self@),
    {
        let n = self.0.len();
        let mut i: usize = 0;
        while i < n
            invariant
                n == self.0@.len(),
                i <= n,
                forall|k: int| 0 <= k < i ==> #[trigger] self@[k].0 < self@[k].1,
                forall|k: int, j: int|
                    0 <= k < i && 0 <= j < n && k != j ==> #[trigger] self@[k].1
                        <= #[trigger] self@[j].0 || self@[j].1 <= self@[k].0,
            decreases n - i,
        {
            let (start, end) = self.0[i];
            assert(self@[i as int] == (start.0, end.0));
            if start.0 >= end.0 {
                assert(!(self@[i as int].0 < self@[i as int].1));
                assert(!ranges_valid(self@));
                return Err(CompilationError::OrdinalsError(OrdinalsFault::InvalidRanges));
            }
            let mut j: usize = 0;
            while j < n
                invariant
                    n == self.0@.len(),
                    i < n,
                    j <= n,
                    start.0 == self@[i as int].0,
                    end.0 == self@[i as int].1,
                    forall|m: int| 0 <= m < j && m != i ==> self@[i as int].1 <= #[trigger] self@[m].0
                        || self@[m].1 <= self@[i as int].0,
                decreases n - j,
            {
                if j != i {
                    let (s2, e2) = self.0[j];
                    assert(self@[j as int] == (s2.0, e2.0));
                    if !(end.0 <= s2.0 || e2.0 <= start.0) {
                        assert(!(self@[i as int].1 <= self@[j as int].0 || self@[j as int].1
                            <= self@[i as int].0));
                        assert(!ranges_valid(self@));
                        return Err(CompilationError::OrdinalsError(OrdinalsFault::InvalidRanges));
                    }
                }
                j += 1;
            }
            i += 1;
        }
        assert(ranges_valid(self@));
        let mut total: u64 = 0;
        let mut i: usize = 0;
        while i < n
            invariant
                n == self.0@.len(),
                i <= n,
                ranges_valid(self@),
                ranges_sum(self@.take(i as int)) == total as int,
            decreases n - i,
        {
            let (start, end) = self.0[i];
            assert(self@[i as int] == (start.0, end.0));
            assert(self@[i as int].0 < self@[i as int].1);
            assert(self@.take(i + 1).drop_last() =~= self@.take(i as int));
            match total.checked_add(end.0 - start.0) {
                Some(t) => {
                    total = t;
                },
                None => {
                    proof {
                        lemma_ranges_sum_prefix(self@, i + 1);
                        lemma_valid_ranges_total_fits(self@);
                    }
                    assert(false);
                    return Err(CompilationError::OrdinalsError(OrdinalsFault::InvalidRanges));
                },
            }
            i += 1;
        }
        assert(self@.take(n as int) =~= self@);
        Ok(total)
    }
}

} // verus!

verus! {

/// One step in an ordinal-preserving output plan.
#[derive(Debug, Clone, Copy, PartialEq, Eq, Structural)]
pub enum PlanStep {
    /// Last step: reserve the exact fee.
    Fee(u64),
    /// Ordinary change, including gaps before requested ordinals.
    Change(u64),
    /// One requested ordinary payout.
    Payout(u64),
    /// An ordinal at offset zero of its padded output.
    Ordinal(Ordinal),
    /// An auxiliary input, added after all known input sats are allocated.
    PayIn(u64),
}

/// A checked output plan, ordered by sat position rather than ordinal number.
#[derive(Debug)]
pub struct Plan(pub Vec<PlanStep>);

/// Requested payouts and the separately funded auxiliary inputs.
#[derive(Debug)]
pub struct OrdinalSpec {
    /// Positive ordinary payout amounts, each assigned to one output.
    pub payouts: Vec<u64>,
    /// Positive auxiliary input amounts with unknown ordinal ranges.
    pub payins: Vec<u64>,
    /// Reserved transaction fees.
    pub fees: u64,
    /// Each requested ordinal starts its own padded output.
    pub ordinals: Vec<Ordinal>,
}

/// The ordinal numbers of a sequence of ordinals.
pub open spec fn ordinal_numbers(s: Seq<Ordinal>) -> Seq<u64> {
    s.map_values(|o: Ordinal| o.0)
}

/// Offset of a shifted position.
pub open spec fn shift(p: Option<int>, offset: int) -> Option<int> {
    match p {
        Some(q) => Some(q + offset),
        None => None,
    }
}

/// Number of leading payouts that fit in `a` sats.
pub open spec fn fits(s: Seq<u64>, a: int) -> int
    decreases s.len(),
{
    if s.len() == 0 {
        0
    } else if s[0] <= a {
        1 + fits(s.drop_first(), a)
    } else {
        0
    }
}

proof fn lemma_fits_bounds(s: Seq<u64>, a: int)
    ensures
        0 <= fits(s, a) <= s.len(),
        forall|j: int| 0 <= j < fits(s, a) ==> s[j] <= a,
    decreases s.len(),
{
    if s.len() > 0 && s[0] <= a {
        lemma_fits_bounds(s.drop_first(), a);
        assert forall|j: int| 0 <= j < fits(s, a) implies s[j] <= a by {
            if j > 0 {
                assert(s[j] == s.drop_first()[j - 1]);
            }
        }
    }
}

/// Greedily fill a gap of `a` sats: repeatedly pay the largest leading payout
/// that fits, and leave the rest of the gap as change.
pub open spec fn gap(a: int, p: Seq<u64>) -> (Seq<PlanStep>, Seq<u64>)
    decreases p.len(),
{
    if a <= 0 {
        (Seq::empty(), p)
    } else {
        let k = fits(p, a);
        if k <= 0 || k > p.len() {
            (seq![PlanStep::Change(a as u64)], p)
        } else {
            let x = p[k - 1];
            let rest = gap(a - x, p.remove(k - 1));
            (seq![PlanStep::Payout(x)] + rest.0, rest.1)
        }
    }
}

/// Number of leading elements whose key is below `x`.
pub open spec fn lead_below(s: Seq<u64>, x: u64) -> int
    decreases s.len(),
{
    if s.len() == 0 {
        0
    } else if s[0] < x {
        1 + lead_below(s.drop_first(), x)
    } else {
        0
    }
}

/// Ascending insertion sort of amounts.
pub open spec fn sort_amounts(s: Seq<u64>) -> Seq<u64>
    decreases s.len(),
{
    if s.len() == 0 {
        s
    } else {
        let t = sort_amounts(s.drop_last());
        t.insert(lead_below(t, s.last()), s.last())
    }
}

/// The sort keys of planned ordinal outputs: their positions.
pub open spec fn position_keys(s: Seq<(u64, u64, u64)>) -> Seq<u64> {
    s.map_values(|e: (u64, u64, u64)| e.0)
}

/// Insertion sort of planned ordinal outputs by position.
pub open spec fn sort_positions(s: Seq<(u64, u64, u64)>) -> Seq<(u64, u64, u64)>
    decreases s.len(),
{
    if s.len() == 0 {
        s
    } else {
        let t = sort_positions(s.drop_last());
        t.insert(lead_below(position_keys(t), s.last().0), s.last())
    }
}

proof fn lemma_lead_below_bound(s: Seq<u64>, x: u64)
    ensures
        0 <= lead_below(s, x) <= s.len(),
        forall|j: int| 0 <= j < lead_below(s, x) ==> s[j] < x,
    decreases s.len(),
{
    if s.len() > 0 && s[0] < x {
        lemma_lead_below_bound(s.drop_first(), x);
        assert forall|j: int| 0 <= j < lead_below(s, x) implies s[j] < x by {
            if j > 0 {
                assert(s[j] == s.drop_first()[j - 1]);
            }
        }
    }
}

proof fn lemma_sort_amounts_len(s: Seq<u64>)
    ensures
        sort_amounts(s).len() == s.len(),
    decreases s.len(),
{
    if s.len() > 0 {
        lemma_sort_amounts_len(s.drop_last());
        lemma_lead_below_bound(sort_amounts(s.drop_last()), s.last());
    }
}

proof fn lemma_sort_positions_bound(s: Seq<(u64, u64, u64)>, known: int)
    requires
        forall|i: int| 0 <= i < s.len() ==> #[trigger] s[i].1 <= known,
    ensures
        sort_positions(s).len() == s.len(),
        forall|i: int| 0 <= i < s.len() ==> #[trigger] sort_positions(s)[i].1 <= known,
    decreases s.len(),
{
    if s.len() > 0 {
        let t = sort_positions(s.drop_last());
        lemma_sort_positions_bound(s.drop_last(), known);
        lemma_lead_below_bound(position_keys(t), s.last().0);
        let k = lead_below(position_keys(t), s.last().0);
        assert(s.last().1 <= known);
        assert forall|i: int| 0 <= i < s.len() implies #[trigger] sort_positions(s)[i].1 <= known by {
            assert(sort_positions(s) == t.insert(k, s.last()));
            if i < k {
                assert(sort_positions(s)[i] == t[i]);
            } else if i > k {
                assert(sort_positions(s)[i] == t[i - 1]);
            }
        }
    }
}

/// Locate each requested ordinal's padded output, accumulating required sats.
pub open spec fn locate(r: Seq<(u64, u64)>, known: int, ords: Seq<u64>, required: int) -> Result<
    (Seq<(u64, u64, u64)>, int),
    OrdinalsFault,
>
    decreases ords.len(),
{
    if ords.len() == 0 {
        Ok((Seq::empty(), required))
    } else {
        match locate(r, known, ords.drop_last(), required) {
            Err(e) => Err(e),
            Ok((ps, req)) => {
                let o = ords.last();
                let size = ORDINAL_PADDING + 1;
                match position_in(r, o) {
                    None => Err(OrdinalsFault::AbsentOrdinal),
                    Some(p) => if req + size > u64::MAX {
                        Err(OrdinalsFault::PayoutTotalOverflow)
                    } else if p + size > u64::MAX {
                        Err(OrdinalsFault::PositionOverflow)
                    } else if p + size > known {
                        Err(OrdinalsFault::PaddingUncovered)
                    } else {
                        Ok((ps.push((p as u64, (p + size) as u64, o)), req + size))
                    },
                }
            },
        }
    }
}

/// Lay out padded ordinal outputs in position order, filling the gaps before them.
pub open spec fn place(ps: Seq<(u64, u64, u64)>, p: Seq<u64>) -> Result<
    (Seq<PlanStep>, Seq<u64>, int),
    OrdinalsFault,
>
    decreases ps.len(),
{
    if ps.len() == 0 {
        Ok((Seq::empty(), p, 0))
    } else {
        match place(ps.drop_last(), p) {
            Err(e) => Err(e),
            Ok((steps, rem, cursor)) => {
                let (pos, end, o) = ps.last();
                if pos < cursor {
                    Err(OrdinalsFault::OverlappingOutputs)
                } else {
                    let g = gap(pos - cursor, rem);
                    Ok((steps + g.0 + seq![PlanStep::Ordinal(Ordinal(o))], g.1, end as int))
                }
            },
        }
    }
}

/// Steps for the auxiliary inputs, in their declared order.
pub open spec fn payin_steps(s: Seq<u64>) -> Seq<PlanStep> {
    s.map_values(|a: u64| PlanStep::PayIn(a))
}

/// After the last ordinal: fill the known tail, add auxiliary inputs, fill
/// the remainder after fees, and end with the fee.
pub open spec fn finish_layout(
    steps: Seq<PlanStep>,
    rem: Seq<u64>,
    tail: int,
    payin_total: int,
    payins: Seq<u64>,
    fees: u64,
) -> Result<Seq<PlanStep>, CompilationError> {
    let (steps1, rem1, tail1) = if payin_total > 0 {
        let g = gap(tail, rem);
        (steps + g.0 + payin_steps(payins), g.1, payin_total)
    } else {
        (steps, rem, tail)
    };
    if tail1 < fees {
        Err(CompilationError::OutOfFunds)
    } else {
        let g = gap(tail1 - fees, rem1);
        if g.1.len() > 0 {
            Err(CompilationError::OrdinalsError(OrdinalsFault::PayoutsDoNotFit))
        } else {
            Ok(steps1 + g.0 + seq![PlanStep::Fee(fees)])
        }
    }
}

/// The plan once padded ordinal outputs are laid out in position order.
pub open spec fn plan_from_place(
    sorted: Seq<(u64, u64, u64)>,
    payouts: Seq<u64>,
    known: int,
    pin: int,
    payins: Seq<u64>,
    fees: u64,
) -> Result<Seq<PlanStep>, CompilationError> {
    match place(sorted, payouts) {
        Err(e) => Err(CompilationError::OrdinalsError(e)),
        Ok((steps, rem, cursor)) => finish_layout(steps, rem, known - cursor, pin, payins, fees),
    }
}

/// The plan once amounts are summed: locate the ordinals, check funding, lay out.
pub open spec fn plan_from_locate(
    r: Seq<(u64, u64)>,
    known: int,
    pin: int,
    payouts: Seq<u64>,
    payins: Seq<u64>,
    fees: u64,
    ords: Seq<u64>,
    required: int,
) -> Result<Seq<PlanStep>, CompilationError> {
    match locate(r, known, ords, required) {
        Err(e) => Err(CompilationError::OrdinalsError(e)),
        Ok((ps, req)) => if req > known + pin {
            Err(CompilationError::OutOfFunds)
        } else {
            plan_from_place(sort_positions(ps), sort_amounts(payouts), known, pin, payins, fees)
        },
    }
}

/// What `output_plan` returns for these ranges and this request.
pub open spec fn output_plan_spec(
    r: Seq<(u64, u64)>,
    payouts: Seq<u64>,
    payins: Seq<u64>,
    fees: u64,
    ords: Seq<u64>,
) -> Result<Seq<PlanStep>, CompilationError> {
    match total_spec(r) {
        Err(e) => Err(CompilationError::OrdinalsError(e)),
        Ok(known) => match checked_sum(payins) {
            Err(e) => Err(CompilationError::OrdinalsError(e)),
            Ok(pin) => if known + pin > u64::MAX {
                Err(CompilationError::OrdinalsError(OrdinalsFault::InputTotalOverflow))
            } else {
                match checked_sum(payouts) {
                    Err(e) => Err(CompilationError::OrdinalsError(e)),
                    Ok(pout) => if pout + fees > u64::MAX {
                        Err(CompilationError::OrdinalsError(OrdinalsFault::PayoutFeeOverflow))
                    } else {
                        plan_from_locate(r, known, pin, payouts, payins, fees, ords, pout + fees)
                    },
                }
            },
        },
    }
}

} // verus!

verus! {

proof fn lemma_locate_stops(r: Seq<(u64, u64)>, known: int, ords: Seq<u64>, i: int, req: int)
    requires
        0 <= i <= ords.len(),
        locate(r, known, ords.take(i), req) is Err,
    ensures
        locate(r, known, ords, req) == locate(r, known, ords.take(i), req),
    decreases ords.len() - i,
{
    if i < ords.len() {
        assert(ords.take(i + 1).drop_last() =~= ords.take(i));
        lemma_locate_stops(r, known, ords, i + 1, req);
    } else {
        assert(ords.take(i) =~= ords);
    }
}

proof fn lemma_place_stops(ps: Seq<(u64, u64, u64)>, i: int, p: Seq<u64>)
    requires
        0 <= i <= ps.len(),
        place(ps.take(i), p) is Err,
    ensures
        place(ps, p) == place(ps.take(i), p),
    decreases ps.len() - i,
{
    if i < ps.len() {
        assert(ps.take(i + 1).drop_last() =~= ps.take(i));
        lemma_place_stops(ps, i + 1, p);
    } else {
        assert(ps.take(i) =~= ps);
    }
}

fn assign_gap(size: u64, payouts: &mut Vec<u64>, steps: &mut Vec<PlanStep>)
    ensures
        final(steps)@ == old(steps)@ + gap(size as int, old(payouts)@).0,
        final(payouts)@ == gap(size as int, old(payouts)@).1,
{
    let ghost a0 = size as int;
    let ghost p0 = payouts@;
    let mut available = size;
    while available > 0
        invariant
            a0 == size as int,
            p0 == old(payouts)@,
            old(steps)@ + gap(a0, p0).0 == steps@ + gap(available as int, payouts@).0,
            gap(a0, p0).1 == gap(available as int, payouts@).1,
        decreases payouts@.len(),
    {
        let mut k: usize = 0;
        assert(payouts@.skip(0) =~= payouts@);
        while k < payouts.len() && payouts[k] <= available
            invariant
                k <= payouts@.len(),
                fits(payouts@, available as int) == k + fits(payouts@.skip(k as int), available as int),
            decreases payouts@.len() - k,
        {
            assert(payouts@.skip(k as int).drop_first() =~= payouts@.skip(k + 1));
            k += 1;
        }
        proof {
            lemma_fits_bounds(payouts@, available as int);
        }
        if k == 0 {
            assert(gap(available as int, payouts@) == (
                seq![PlanStep::Change(available)],
                payouts@,
            ));
            let ghost steps_before = steps@;
            steps.push(PlanStep::Change(available));
            assert(steps@ =~= steps_before + seq![PlanStep::Change(available)]);
            assert(steps@ == old(steps)@ + gap(a0, p0).0);
            assert(payouts@ == gap(a0, p0).1);
            assert(steps@ == old(steps)@ + gap(a0, p0).0);
            return;
        }
        let ghost before = payouts@;
        let ghost rest = gap(available - payouts@[k - 1], payouts@.remove(k - 1));
        let amount = payouts.remove(k - 1);
        let ghost steps_before = steps@;
        steps.push(PlanStep::Payout(amount));
        assert(gap(available as int, before) == (seq![PlanStep::Payout(amount)] + rest.0, rest.1));
        assert(steps_before + (seq![PlanStep::Payout(amount)] + rest.0) =~= steps@ + rest.0);
        available = available - amount;
    }
}

fn sort_amount_list(v: &Vec<u64>) -> (r: Vec<u64>)
    ensures
        r@ == sort_amounts(v@),
{
    let mut out: Vec<u64> = Vec::new();
    let mut i: usize = 0;
    while i < v.len()
        invariant
            i <= v@.len(),
            out@ == sort_amounts(v@.take(i as int)),
        decreases v@.len() - i,
    {
        let x = v[i];
        let mut j: usize = 0;
        assert(out@.skip(0) =~= out@);
        while j < out.len() && out[j] < x
            invariant
                j <= out@.len(),
                lead_below(out@, x) == j + lead_below(out@.skip(j as int), x),
            decreases out@.len() - j,
        {
            assert(out@.skip(j as int).drop_first() =~= out@.skip(j + 1));
            j += 1;
        }
        assert(v@.take(i + 1).drop_last() =~= v@.take(i as int));
        out.insert(j, x);
        i += 1;
    }
    assert(v@.take(i as int) =~= v@);
    out
}

fn sort_position_list(v: &Vec<(u64, u64, u64)>) -> (r: Vec<(u64, u64, u64)>)
    ensures
        r@ == sort_positions(v@),
{
    let mut out: Vec<(u64, u64, u64)> = Vec::new();
    let mut i: usize = 0;
    while i < v.len()
        invariant
            i <= v@.len(),
            out@ == sort_positions(v@.take(i as int)),
        decreases v@.len() - i,
    {
        let x = v[i];
        let mut j: usize = 0;
        assert(position_keys(out@).skip(0) =~= position_keys(out@));
        while j < out.len() && out[j].0 < x.0
            invariant
                j <= out@.len(),
                lead_below(position_keys(out@), x.0) == j + lead_below(
                    position_keys(out@).skip(j as int),
                    x.0,
                ),
            decreases out@.len() - j,
        {
            assert(position_keys(out@).skip(j as int).drop_first() =~= position_keys(out@).skip(
                j + 1,
            ));
            assert(position_keys(out@).skip(j as int)[0] == out@[j as int].0);
            j += 1;
        }
        if j < out.len() {
            assert(position_keys(out@).skip(j as int)[0] == out@[j as int].0);
        }
        assert(v@.take(i + 1).drop_last() =~= v@.take(i as int));
        out.insert(j, x);
        i += 1;
    }
    assert(v@.take(i as int) =~= v@);
    out
}

impl OrdinalsInfo {
    /// The input position of an ordinal, if the ranges hold it.
    pub(crate) fn find_position(&self, o: u64) -> (r: Option<u64>)
        requires
            ranges_valid(self@),
        ensures
            r is None <==> position_in(self@, o) is None,
            r matches Some(q) ==> position_in(self@, o) == Some(q as int),
    {
        let n = self.0.len();
        let mut offset: u64 = 0;
        let mut i: usize = 0;
        assert(self@.skip(0) =~= self@);
        proof {
            lemma_valid_ranges_total_fits(self@);
        }
        while i < n
            invariant
                n == self@.len(),
                i <= n,
                ranges_valid(self@),
                ranges_sum(self@) <= u64::MAX,
                offset as int == ranges_sum(self@.take(i as int)),
                position_in(self@, o) == shift(position_in(self@.skip(i as int), o), offset as int),
            decreases n - i,
        {
            let (start, end) = self.0[i];
            assert(self@[i as int] == (start.0, end.0));
            assert(self@.skip(i as int)[0] == self@[i as int]);
            assert(self@.skip(i as int).drop_first() =~= self@.skip(i + 1));
            assert(self@.take(i + 1).drop_last() =~= self@.take(i as int));
            assert(self@[i as int].0 < self@[i as int].1);
            proof {
                lemma_ranges_sum_prefix(self@, i + 1);
            }
            if start.0 <= o && o < end.0 {
                return Some(offset + (o - start.0));
            }
            offset = offset + (end.0 - start.0);
            i += 1;
        }
        assert(self@.skip(i as int) =~= Seq::<(u64, u64)>::empty());
        None
    }

    /// Greedily fit payouts into gaps between padded ordinal outputs.
    ///
    /// This is not an optimal packing solver. Unknown auxiliary inputs come
    /// after all known sats, and must cover fees whenever they are present.
    pub fn output_plan(&self, spec: &OrdinalSpec) -> (r: Result<Plan, CompilationError>)
        ensures
            match output_plan_spec(
                self@,
                spec.payouts@,
                spec.payins@,
                spec.fees,
                ordinal_numbers(spec.ordinals@),
            ) {
                Ok(steps) => r matches Ok(plan) && plan.0@ == steps,
                Err(e) => r matches Err(f) && f == e,
            },
    {
        let known = match self.total() {
            Ok(k) => k,
            Err(e) => return Err(e),
        };
        let payins = match sum_amounts(&spec.payins) {
            Ok(t) => t,
            Err(e) => return Err(CompilationError::OrdinalsError(e)),
        };
        let available = match known.checked_add(payins) {
            Some(a) => a,
            None => return Err(CompilationError::OrdinalsError(OrdinalsFault::InputTotalOverflow)),
        };
        let payout_total = match sum_amounts(&spec.payouts) {
            Ok(t) => t,
            Err(e) => return Err(CompilationError::OrdinalsError(e)),
        };
        let mut required = match payout_total.checked_add(spec.fees) {
            Some(t) => t,
            None => return Err(CompilationError::OrdinalsError(OrdinalsFault::PayoutFeeOverflow)),
        };
        let ghost ords = ordinal_numbers(spec.ordinals@);
        let ghost required0 = required as int;
        let ghost target = output_plan_spec(
            self@,
            spec.payouts@,
            spec.payins@,
            spec.fees,
            ords,
        );
        assert(target == plan_from_locate(
            self@,
            known as int,
            payins as int,
            spec.payouts@,
            spec.payins@,
            spec.fees,
            ords,
            required0,
        ));
        let mut positions: Vec<(u64, u64, u64)> = Vec::new();
        let mut i: usize = 0;
        while i < spec.ordinals.len()
            invariant
                i <= spec.ordinals@.len(),
                ords == ordinal_numbers(spec.ordinals@),
                ranges_valid(self@),
                known as int == ranges_sum(self@),
                target == output_plan_spec(
                    self@,
                    spec.payouts@,
                    spec.payins@,
                    spec.fees,
                    ordinal_numbers(spec.ordinals@),
                ),
                target == plan_from_locate(
                    self@,
                    known as int,
                    payins as int,
                    spec.payouts@,
                    spec.payins@,
                    spec.fees,
                    ords,
                    required0,
                ),
                locate(self@, known as int, ords.take(i as int), required0) == Ok::<
                    (Seq<(u64, u64, u64)>, int),
                    OrdinalsFault,
                >((positions@, required as int)),
                forall|m: int| 0 <= m < positions@.len() ==> #[trigger] positions@[m].1 <= known,
            decreases spec.ordinals@.len() - i,
        {
            let ordinal = spec.ordinals[i].0;
            assert(ords[i as int] == ordinal);
            let ghost pre = ords.take(i + 1);
            assert(pre.drop_last() =~= ords.take(i as int));
            assert(pre.last() == ordinal);
            let position = match self.find_position(ordinal) {
                Some(p) => p,
                None => {
                    assert(locate(self@, known as int, pre, required0) == Err::<
                        (Seq<(u64, u64, u64)>, int),
                        OrdinalsFault,
                    >(OrdinalsFault::AbsentOrdinal));
                    proof {
                        lemma_locate_stops(self@, known as int, ords, i + 1, required0);
                    }
                    assert(target == Err::<Seq<PlanStep>, CompilationError>(
                        CompilationError::OrdinalsError(OrdinalsFault::AbsentOrdinal),
                    ));
                    return Err(CompilationError::OrdinalsError(OrdinalsFault::AbsentOrdinal));
                },
            };
            assert(position_in(self@, ordinal) == Some(position as int));
            let size = ORDINAL_PADDING + 1;
            required = match required.checked_add(size) {
                Some(t) => t,
                None => {
                    assert(locate(self@, known as int, pre, required0) == Err::<
                        (Seq<(u64, u64, u64)>, int),
                        OrdinalsFault,
                    >(OrdinalsFault::PayoutTotalOverflow));
                    proof {
                        lemma_locate_stops(self@, known as int, ords, i + 1, required0);
                    }
                    assert(target == Err::<Seq<PlanStep>, CompilationError>(
                        CompilationError::OrdinalsError(OrdinalsFault::PayoutTotalOverflow),
                    ));
                    return Err(CompilationError::OrdinalsError(OrdinalsFault::PayoutTotalOverflow));
                },
            };
            let end = match position.checked_add(size) {
                Some(e) => e,
                None => {
                    assert(locate(self@, known as int, pre, required0) == Err::<
                        (Seq<(u64, u64, u64)>, int),
                        OrdinalsFault,
                    >(OrdinalsFault::PositionOverflow));
                    proof {
                        lemma_locate_stops(self@, known as int, ords, i + 1, required0);
                    }
                    assert(target == Err::<Seq<PlanStep>, CompilationError>(
                        CompilationError::OrdinalsError(OrdinalsFault::PositionOverflow),
                    ));
                    return Err(CompilationError::OrdinalsError(OrdinalsFault::PositionOverflow));
                },
            };
            if end > known {
                assert(locate(self@, known as int, pre, required0) == Err::<
                    (Seq<(u64, u64, u64)>, int),
                    OrdinalsFault,
                >(OrdinalsFault::PaddingUncovered));
                proof {
                    lemma_locate_stops(self@, known as int, ords, i + 1, required0);
                }
                assert(target == Err::<Seq<PlanStep>, CompilationError>(
                    CompilationError::OrdinalsError(OrdinalsFault::PaddingUncovered),
                ));
                return Err(CompilationError::OrdinalsError(OrdinalsFault::PaddingUncovered));
            }
            positions.push((position, end, ordinal));
            i += 1;
        }
        assert(ords.take(i as int) =~= ords);
        if required > available {
            return Err(CompilationError::OutOfFunds);
        }
        let sorted = sort_position_list(&positions);
        proof {
            lemma_sort_positions_bound(positions@, known as int);
        }
        let mut payouts = sort_amount_list(&spec.payouts);
        let ghost sorted_payouts = payouts@;
        assert(target == plan_from_place(
            sorted@,
            sorted_payouts,
            known as int,
            payins as int,
            spec.payins@,
            spec.fees,
        ));
        let mut steps: Vec<PlanStep> = Vec::new();
        let mut cursor: u64 = 0;
        let mut i: usize = 0;
        while i < sorted.len()
            invariant
                i <= sorted@.len(),
                forall|m: int| 0 <= m < sorted@.len() ==> #[trigger] sorted@[m].1 <= known,
                cursor <= known,
                target == output_plan_spec(
                    self@,
                    spec.payouts@,
                    spec.payins@,
                    spec.fees,
                    ordinal_numbers(spec.ordinals@),
                ),
                target == plan_from_place(
                    sorted@,
                    sorted_payouts,
                    known as int,
                    payins as int,
                    spec.payins@,
                    spec.fees,
                ),
                place(sorted@.take(i as int), sorted_payouts) == Ok::<
                    (Seq<PlanStep>, Seq<u64>, int),
                    OrdinalsFault,
                >((steps@, payouts@, cursor as int)),
            decreases sorted@.len() - i,
        {
            let (position, end, ordinal) = sorted[i];
            assert(sorted@.take(i + 1).drop_last() =~= sorted@.take(i as int));
            assert(sorted@.take(i + 1).last() == (position, end, ordinal));
            if position < cursor {
                assert(place(sorted@.take(i + 1), sorted_payouts) == Err::<
                    (Seq<PlanStep>, Seq<u64>, int),
                    OrdinalsFault,
                >(OrdinalsFault::OverlappingOutputs));
                proof {
                    lemma_place_stops(sorted@, i + 1, sorted_payouts);
                }
                return Err(CompilationError::OrdinalsError(OrdinalsFault::OverlappingOutputs));
            }
            let ghost steps_before = steps@;
            let ghost payouts_before = payouts@;
            assign_gap(position - cursor, &mut payouts, &mut steps);
            steps.push(PlanStep::Ordinal(Ordinal(ordinal)));
            assert(steps@ =~= steps_before + gap(position - cursor, payouts_before).0 + seq![
                PlanStep::Ordinal(Ordinal(ordinal)),
            ]);
            cursor = end;
            i += 1;
        }
        assert(sorted@.take(i as int) =~= sorted@);
        let ghost steps0 = steps@;
        let ghost rem0 = payouts@;
        let mut tail = known - cursor;
        if payins > 0 {
            assign_gap(tail, &mut payouts, &mut steps);
            let mut j: usize = 0;
            let ghost with_gap = steps@;
            while j < spec.payins.len()
                invariant
                    j <= spec.payins@.len(),
                    steps@ == with_gap + payin_steps(spec.payins@.take(j as int)),
                decreases spec.payins@.len() - j,
            {
                assert(payin_steps(spec.payins@.take(j + 1)) =~= payin_steps(
                    spec.payins@.take(j as int),
                ).push(PlanStep::PayIn(spec.payins@[j as int])));
                steps.push(PlanStep::PayIn(spec.payins[j]));
                j += 1;
            }
            assert(spec.payins@.take(j as int) =~= spec.payins@);
            tail = payins;
        }
        let after_fee = match tail.checked_sub(spec.fees) {
            Some(a) => a,
            None => return Err(CompilationError::OutOfFunds),
        };
        assign_gap(after_fee, &mut payouts, &mut steps);
        if payouts.len() > 0 {
            return Err(CompilationError::OrdinalsError(OrdinalsFault::PayoutsDoNotFit));
        }
        steps.push(PlanStep::Fee(spec.fees));
        Ok(Plan(steps))
    }
}

} // verus!

verus! {

/// Sats a step sends to an output or to fees; auxiliary inputs send none.
pub open spec fn step_value(step: PlanStep) -> int {
    match step {
        PlanStep::Fee(f) => f as int,
        PlanStep::Change(a) => a as int,
        PlanStep::Payout(a) => a as int,
        PlanStep::Ordinal(_) => ORDINAL_PADDING + 1,
        PlanStep::PayIn(_) => 0,
    }
}

/// Sats sent to outputs and fees by a sequence of steps.
pub open spec fn out_sum(steps: Seq<PlanStep>) -> int
    decreases steps.len(),
{
    if steps.len() == 0 {
        0
    } else {
        out_sum(steps.drop_last()) + step_value(steps.last())
    }
}

proof fn lemma_out_sum_concat(a: Seq<PlanStep>, b: Seq<PlanStep>)
    ensures
        out_sum(a + b) == out_sum(a) + out_sum(b),
    decreases b.len(),
{
    if b.len() == 0 {
        assert(a + b =~= a);
    } else {
        lemma_out_sum_concat(a, b.drop_last());
        assert((a + b).drop_last() =~= a + b.drop_last());
    }
}

proof fn lemma_out_sum_payins(s: Seq<u64>)
    ensures
        out_sum(payin_steps(s)) == 0,
        forall|j: int| 0 <= j < s.len() ==> #[trigger] payin_steps(s)[j] is PayIn,
    decreases s.len(),
{
    if s.len() > 0 {
        lemma_out_sum_payins(s.drop_last());
        assert(payin_steps(s).drop_last() =~= payin_steps(s.drop_last()));
    }
}

/// A gap of `a` sats is filled exactly, by payouts and change only.
proof fn lemma_gap_fills(a: int, p: Seq<u64>)
    requires
        0 <= a <= u64::MAX,
    ensures
        out_sum(gap(a, p).0) == a,
        forall|j: int| 0 <= j < gap(a, p).0.len() ==> !(#[trigger] gap(a, p).0[j] is Ordinal),
        forall|j: int| 0 <= j < gap(a, p).0.len() ==> !(#[trigger] gap(a, p).0[j] is Fee),
        forall|j: int| 0 <= j < gap(a, p).0.len() ==> !(#[trigger] gap(a, p).0[j] is PayIn),
    decreases p.len(),
{
    if a > 0 {
        let k = fits(p, a);
        lemma_fits_bounds(p, a);
        if k <= 0 || k > p.len() {
            assert(out_sum(seq![PlanStep::Change(a as u64)]) == a) by {
                reveal_with_fuel(out_sum, 2);
                assert(seq![PlanStep::Change(a as u64)].drop_last() =~= Seq::<PlanStep>::empty());
            }
        } else {
            let x = p[k - 1];
            lemma_gap_fills(a - x, p.remove(k - 1));
            let rest = gap(a - x, p.remove(k - 1));
            lemma_out_sum_concat(seq![PlanStep::Payout(x)], rest.0);
            assert(out_sum(seq![PlanStep::Payout(x)]) == x) by {
                reveal_with_fuel(out_sum, 2);
                assert(seq![PlanStep::Payout(x)].drop_last() =~= Seq::<PlanStep>::empty());
            }
            assert forall|j: int| 0 <= j < gap(a, p).0.len() implies !(#[trigger] gap(
                a,
                p,
            ).0[j] is Ordinal) && !(gap(a, p).0[j] is Fee) && !(gap(a, p).0[j] is PayIn) by {
                if j > 0 {
                    assert(gap(a, p).0[j] == rest.0[j - 1]);
                }
            }
        }
    }
}

/// An ordinal's position among valid ranges is never negative.
pub(crate) proof fn lemma_position_nonneg(s: Seq<(u64, u64)>, o: u64)
    requires
        forall|k: int| 0 <= k < s.len() ==> #[trigger] s[k].0 < s[k].1,
    ensures
        position_in(s, o) matches Some(p) ==> p >= 0,
    decreases s.len(),
{
    if s.len() > 0 {
        assert(s[0].0 < s[0].1);
        lemma_position_nonneg(s.drop_first(), o);
    }
}

/// Every located ordinal output is padded, inside the known sats, and at the
/// ordinal's actual input position.
proof fn lemma_locate_entries(r: Seq<(u64, u64)>, known: int, ords: Seq<u64>, required: int)
    requires
        locate(r, known, ords, required) is Ok,
        ranges_valid(r),
    ensures
        ({
            let ps = locate(r, known, ords, required)->Ok_0.0;
            forall|i: int|
                0 <= i < ps.len() ==> #[trigger] ps[i].1 == ps[i].0 + ORDINAL_PADDING + 1
                    && ps[i].1 <= known && position_in(r, ps[i].2) == Some(ps[i].0 as int)
        }),
    decreases ords.len(),
{
    if ords.len() > 0 {
        lemma_locate_entries(r, known, ords.drop_last(), required);
        let (prev, req) = locate(r, known, ords.drop_last(), required)->Ok_0;
        let ps = locate(r, known, ords, required)->Ok_0.0;
        lemma_position_nonneg(r, ords.last());
        assert forall|i: int| 0 <= i < ps.len() implies #[trigger] ps[i].1 == ps[i].0
            + ORDINAL_PADDING + 1 && ps[i].1 <= known && position_in(r, ps[i].2) == Some(
            ps[i].0 as int,
        ) by {
            if i < prev.len() {
                assert(ps[i] == prev[i]);
            }
        }
    }
}

proof fn lemma_sort_positions_members(s: Seq<(u64, u64, u64)>)
    ensures
        sort_positions(s).len() == s.len(),
        forall|i: int| 0 <= i < s.len() ==> s.contains(#[trigger] sort_positions(s)[i]),
    decreases s.len(),
{
    if s.len() > 0 {
        let t = sort_positions(s.drop_last());
        lemma_sort_positions_members(s.drop_last());
        lemma_lead_below_bound(position_keys(t), s.last().0);
        let k = lead_below(position_keys(t), s.last().0);
        assert forall|i: int| 0 <= i < s.len() implies s.contains(#[trigger] sort_positions(s)[i]) by {
            assert(sort_positions(s) == t.insert(k, s.last()));
            if i < k {
                assert(sort_positions(s)[i] == t[i]);
                assert(s.drop_last().contains(t[i]));
                let m = choose|m: int| 0 <= m < s.drop_last().len() && s.drop_last()[m] == t[i];
                assert(s[m] == t[i]);
            } else if i > k {
                assert(sort_positions(s)[i] == t[i - 1]);
                assert(s.drop_last().contains(t[i - 1]));
                let m = choose|m: int|
                    0 <= m < s.drop_last().len() && s.drop_last()[m] == t[i - 1];
                assert(s[m] == t[i - 1]);
            } else {
                assert(sort_positions(s)[i] == s[s.len() - 1]);
            }
        }
    }
}

/// The laid-out prefix sends exactly the sats before the cursor, and each
/// ordinal step starts exactly at its entry's position.
proof fn lemma_place_accounts(ps: Seq<(u64, u64, u64)>, p: Seq<u64>)
    requires
        place(ps, p) is Ok,
        forall|i: int|
            0 <= i < ps.len() ==> #[trigger] ps[i].1 == ps[i].0 + ORDINAL_PADDING + 1,
    ensures
        ({
            let (steps, rem, cursor) = place(ps, p)->Ok_0;
            &&& out_sum(steps) == cursor
            &&& cursor >= 0
            &&& (cursor == 0 || exists|i: int| 0 <= i < ps.len() && cursor == ps[i].1)
            &&& forall|j: int|
                0 <= j < steps.len() && #[trigger] steps[j] is Ordinal ==> exists|i: int|
                    0 <= i < ps.len() && ps[i].2 == steps[j]->Ordinal_0.0 && out_sum(
                        steps.take(j),
                    ) == ps[i].0
            &&& forall|j: int| 0 <= j < steps.len() ==> !(#[trigger] steps[j] is Fee)
            &&& forall|j: int| 0 <= j < steps.len() ==> !(#[trigger] steps[j] is PayIn)
        }),
    decreases ps.len(),
{
    if ps.len() > 0 {
        let prev = ps.drop_last();
        lemma_place_accounts(prev, p);
        let (steps, rem, cursor) = place(prev, p)->Ok_0;
        let (pos, end, o) = ps.last();
        assert(ps[ps.len() - 1].1 == ps[ps.len() - 1].0 + ORDINAL_PADDING + 1);
        let g = gap(pos - cursor, rem);
        lemma_gap_fills(pos - cursor, rem);
        let ord = seq![PlanStep::Ordinal(Ordinal(o))];
        lemma_out_sum_concat(steps, g.0);
        lemma_out_sum_concat(steps + g.0, ord);
        assert(out_sum(ord) == ORDINAL_PADDING + 1) by {
            reveal_with_fuel(out_sum, 2);
            assert(ord.drop_last() =~= Seq::<PlanStep>::empty());
        }
        let all = steps + g.0 + ord;
        assert(ps[ps.len() - 1].1 == end);
        assert forall|j: int|
            0 <= j < all.len() && #[trigger] all[j] is Ordinal implies exists|i: int|
                0 <= i < ps.len() && ps[i].2 == all[j]->Ordinal_0.0 && out_sum(all.take(j))
                    == ps[i].0 by {
            if j < steps.len() {
                assert(all[j] == steps[j]);
                assert(all.take(j) =~= steps.take(j));
                let i = choose|i: int|
                    0 <= i < prev.len() && prev[i].2 == steps[j]->Ordinal_0.0 && out_sum(
                        steps.take(j),
                    ) == prev[i].0;
                assert(ps[i] == prev[i]);
            } else if j < steps.len() + g.0.len() {
                assert(all[j] == g.0[j - steps.len()]);
            } else {
                assert(j == all.len() - 1);
                assert(all.take(j) =~= steps + g.0);
                assert(ps[ps.len() - 1].2 == o);
            }
        }
        assert forall|j: int| 0 <= j < all.len() implies !(#[trigger] all[j] is Fee) && !(
        all[j] is PayIn) by {
            if j < steps.len() {
                assert(all[j] == steps[j]);
            } else if j < steps.len() + g.0.len() {
                assert(all[j] == g.0[j - steps.len()]);
            }
        }
    }
}

} // verus!

verus! {

/// A successful ordinal plan accounts for every sat: its outputs and fee use
/// exactly the known input sats plus the auxiliary inputs, it ends with the
/// fee, and each requested ordinal starts its own output exactly at the
/// ordinal's position among the known input sats.
pub proof fn lemma_output_plan_accounts(
    r: Seq<(u64, u64)>,
    payouts: Seq<u64>,
    payins: Seq<u64>,
    fees: u64,
    ords: Seq<u64>,
)
    requires
        output_plan_spec(r, payouts, payins, fees, ords) is Ok,
    ensures
        ({
            let steps = output_plan_spec(r, payouts, payins, fees, ords)->Ok_0;
            &&& out_sum(steps) == ranges_sum(r) + checked_sum(payins)->Ok_0
            &&& steps.len() > 0 && steps.last() == PlanStep::Fee(fees)
            &&& forall|j: int|
                0 <= j < steps.len() && #[trigger] steps[j] is Ordinal ==> position_in(
                    r,
                    steps[j]->Ordinal_0.0,
                ) == Some(out_sum(steps.take(j)))
        }),
{
    let known = ranges_sum(r);
    let pin = checked_sum(payins)->Ok_0;
    let pout = checked_sum(payouts)->Ok_0;
    lemma_checked_sum_bounds(payins);
    lemma_checked_sum_bounds(payouts);
    let (ps, req) = locate(r, known, ords, pout + fees)->Ok_0;
    lemma_locate_entries(r, known, ords, pout + fees);
    let sorted = sort_positions(ps);
    lemma_sort_positions_members(ps);
    assert forall|i: int| #![trigger sorted[i]] 0 <= i < sorted.len() implies sorted[i].1 == sorted[i].0
        + ORDINAL_PADDING + 1 && sorted[i].1 <= known && position_in(r, sorted[i].2) == Some(
        sorted[i].0 as int,
    ) by {
        assert(ps.contains(sorted[i]));
        let m = choose|m: int| 0 <= m < ps.len() && ps[m] == sorted[i];
        assert(ps[m].1 == ps[m].0 + ORDINAL_PADDING + 1);
    }
    let sp = sort_amounts(payouts);
    lemma_place_accounts(sorted, sp);
    let (steps, rem, cursor) = place(sorted, sp)->Ok_0;
    lemma_ranges_sum_nonneg(r);
    assert(cursor <= known) by {
        if cursor != 0 {
            let i = choose|i: int| 0 <= i < sorted.len() && cursor == sorted[i].1;
            assert(sorted[i].1 <= known);
        }
    }
    let result = output_plan_spec(r, payouts, payins, fees, ords)->Ok_0;
    let tail = known - cursor;
    let (steps1, rem1, tail1) = if pin > 0 {
        let g = gap(tail, rem);
        (steps + g.0 + payin_steps(payins), g.1, pin)
    } else {
        (steps, rem, tail)
    };
    if pin > 0 {
        lemma_gap_fills(tail, rem);
        lemma_out_sum_payins(payins);
        lemma_out_sum_concat(steps, gap(tail, rem).0);
        lemma_out_sum_concat(steps + gap(tail, rem).0, payin_steps(payins));
    }
    let g2 = gap(tail1 - fees, rem1);
    lemma_gap_fills(tail1 - fees, rem1);
    let fee = seq![PlanStep::Fee(fees)];
    assert(out_sum(fee) == fees) by {
        reveal_with_fuel(out_sum, 2);
        assert(fee.drop_last() =~= Seq::<PlanStep>::empty());
    }
    lemma_out_sum_concat(steps1, g2.0);
    lemma_out_sum_concat(steps1 + g2.0, fee);
    assert(result == steps1 + g2.0 + fee);
    assert(steps1.len() >= steps.len());
    assert forall|j: int|
        0 <= j < result.len() && #[trigger] result[j] is Ordinal implies position_in(
        r,
        result[j]->Ordinal_0.0,
    ) == Some(out_sum(result.take(j))) by {
        if j < steps.len() {
            assert(result[j] == steps[j]);
            assert(result.take(j) =~= steps.take(j));
            let i = choose|i: int|
                0 <= i < sorted.len() && sorted[i].2 == steps[j]->Ordinal_0.0 && out_sum(
                    steps.take(j),
                ) == sorted[i].0;
            assert(position_in(r, sorted[i].2) == Some(sorted[i].0 as int));
        } else if j < steps1.len() {
            if pin > 0 {
                let g = gap(tail, rem);
                if j < steps.len() + g.0.len() {
                    assert(result[j] == g.0[j - steps.len()]);
                } else {
                    assert(result[j] == payin_steps(payins)[j - steps.len() - g.0.len()]);
                }
            }
        } else if j < steps1.len() + g2.0.len() {
            assert(result[j] == g2.0[j - steps1.len()]);
        } else {
            assert(result[j] == PlanStep::Fee(fees));
        }
    }
}

/// The auxiliary input amounts a sequence of steps adds, in order.
pub open spec fn payins_of(steps: Seq<PlanStep>) -> Seq<u64>
    decreases steps.len(),
{
    if steps.len() == 0 {
        Seq::empty()
    } else {
        let rest = payins_of(steps.drop_last());
        match steps.last() {
            PlanStep::PayIn(a) => rest.push(a),
            _ => rest,
        }
    }
}

/// The payout amounts a sequence of steps pays, in order.
pub open spec fn payouts_of(steps: Seq<PlanStep>) -> Seq<u64>
    decreases steps.len(),
{
    if steps.len() == 0 {
        Seq::empty()
    } else {
        let rest = payouts_of(steps.drop_last());
        match steps.last() {
            PlanStep::Payout(a) => rest.push(a),
            _ => rest,
        }
    }
}

proof fn lemma_kinds_concat(a: Seq<PlanStep>, b: Seq<PlanStep>)
    ensures
        payins_of(a + b) == payins_of(a) + payins_of(b),
        payouts_of(a + b) == payouts_of(a) + payouts_of(b),
    decreases b.len(),
{
    if b.len() == 0 {
        assert(a + b =~= a);
        assert(payins_of(a) + payins_of(b) =~= payins_of(a));
        assert(payouts_of(a) + payouts_of(b) =~= payouts_of(a));
    } else {
        lemma_kinds_concat(a, b.drop_last());
        assert((a + b).drop_last() =~= a + b.drop_last());
        assert((a + b).last() == b.last());
        assert(payins_of(a) + payins_of(b.drop_last()).push(b.last()->PayIn_0) =~= (payins_of(a)
            + payins_of(b.drop_last())).push(b.last()->PayIn_0));
        assert(payouts_of(a) + payouts_of(b.drop_last()).push(b.last()->Payout_0) =~= (payouts_of(
            a,
        ) + payouts_of(b.drop_last())).push(b.last()->Payout_0));
    }
}

proof fn lemma_no_payins(s: Seq<PlanStep>)
    requires
        forall|j: int| 0 <= j < s.len() ==> !(#[trigger] s[j] is PayIn),
    ensures
        payins_of(s) == Seq::<u64>::empty(),
    decreases s.len(),
{
    if s.len() > 0 {
        lemma_no_payins(s.drop_last());
        assert(s.last() == s[s.len() - 1]);
    }
}

proof fn lemma_payin_steps_payins(p: Seq<u64>)
    ensures
        payins_of(payin_steps(p)) == p,
        payouts_of(payin_steps(p)) == Seq::<u64>::empty(),
    decreases p.len(),
{
    if p.len() > 0 {
        lemma_payin_steps_payins(p.drop_last());
        assert(payin_steps(p).drop_last() =~= payin_steps(p.drop_last()));
        assert(p.drop_last().push(p.last()) =~= p);
    }
}

/// Filling a gap pays some of the payouts and leaves the others, none lost
/// and none added.
proof fn lemma_gap_permutes(a: int, p: Seq<u64>)
    ensures
        payouts_of(gap(a, p).0).to_multiset().add(gap(a, p).1.to_multiset()) == p.to_multiset(),
        payins_of(gap(a, p).0) == Seq::<u64>::empty(),
    decreases p.len(),
{
    broadcast use vstd::multiset::group_multiset_axioms;
    broadcast use vstd::seq_lib::group_to_multiset_ensures;

    reveal_with_fuel(payouts_of, 2);
    reveal_with_fuel(payins_of, 2);
    if a <= 0 {
        assert(payouts_of(Seq::<PlanStep>::empty()) =~= Seq::<u64>::empty());
        assert(payouts_of(gap(a, p).0).to_multiset() =~= Multiset::<u64>::empty());
        assert(payouts_of(gap(a, p).0).to_multiset().add(p.to_multiset()) =~= p.to_multiset());
    } else {
        let k = fits(p, a);
        if k <= 0 || k > p.len() {
            let c = seq![PlanStep::Change(a as u64)];
            assert(c.drop_last() =~= Seq::<PlanStep>::empty());
            assert(c.last() == PlanStep::Change(a as u64));
            assert(payouts_of(c) =~= Seq::<u64>::empty());
            assert(payins_of(c) =~= Seq::<u64>::empty());
            assert(payouts_of(c).to_multiset() =~= Multiset::<u64>::empty());
            assert(payouts_of(c).to_multiset().add(p.to_multiset()) =~= p.to_multiset());
        } else {
            let x = p[k - 1];
            let rest = gap(a - x, p.remove(k - 1));
            lemma_gap_permutes(a - x, p.remove(k - 1));
            let first = seq![PlanStep::Payout(x)];
            assert(first.drop_last() =~= Seq::<PlanStep>::empty());
            assert(payouts_of(first) =~= seq![x]);
            assert(payins_of(first) =~= Seq::<u64>::empty());
            lemma_kinds_concat(first, rest.0);
            assert(gap(a, p).0 == first + rest.0);
            assert(seq![x] + payouts_of(rest.0) =~= payouts_of(rest.0).insert(0, x));
            vstd::seq_lib::to_multiset_insert(payouts_of(rest.0), 0, x);
            vstd::seq_lib::to_multiset_remove(p, k - 1);
            assert(p.to_multiset().contains(x));
            assert(p.to_multiset().remove(x).insert(x) =~= p.to_multiset());
            assert(payouts_of(gap(a, p).0).to_multiset().add(gap(a, p).1.to_multiset())
                =~= payouts_of(rest.0).to_multiset().add(rest.1.to_multiset()).insert(x));
            assert(payins_of(gap(a, p).0) =~= Seq::<u64>::empty());
        }
    }
}

proof fn lemma_place_permutes(ps: Seq<(u64, u64, u64)>, p: Seq<u64>)
    requires
        place(ps, p) is Ok,
    ensures
        payouts_of(place(ps, p)->Ok_0.0).to_multiset().add(place(ps, p)->Ok_0.1.to_multiset())
            == p.to_multiset(),
    decreases ps.len(),
{
    broadcast use vstd::multiset::group_multiset_axioms;
    broadcast use vstd::seq_lib::group_to_multiset_ensures;

    reveal_with_fuel(payouts_of, 2);
    if ps.len() == 0 {
        assert(payouts_of(Seq::<PlanStep>::empty()) =~= Seq::<u64>::empty());
        assert(Seq::<u64>::empty().to_multiset().add(p.to_multiset()) =~= p.to_multiset());
    } else {
        lemma_place_permutes(ps.drop_last(), p);
        let (steps, rem, cursor) = place(ps.drop_last(), p)->Ok_0;
        let (pos, end, o) = ps.last();
        let g = gap(pos - cursor, rem);
        lemma_gap_permutes(pos - cursor, rem);
        let last = seq![PlanStep::Ordinal(Ordinal(o))];
        assert(last.drop_last() =~= Seq::<PlanStep>::empty());
        assert(payouts_of(last) =~= Seq::<u64>::empty());
        lemma_kinds_concat(steps, g.0);
        lemma_kinds_concat(steps + g.0, last);
        assert(place(ps, p)->Ok_0.0 == steps + g.0 + last);
        assert(payouts_of(steps + g.0 + last) =~= payouts_of(steps) + payouts_of(g.0));
        vstd::seq_lib::lemma_multiset_commutative(payouts_of(steps), payouts_of(g.0));
        assert(payouts_of(place(ps, p)->Ok_0.0).to_multiset().add(place(ps, p)->Ok_0.1.to_multiset())
            =~= payouts_of(steps).to_multiset().add(
            payouts_of(g.0).to_multiset().add(g.1.to_multiset()),
        ));
    }
}

proof fn lemma_sort_amounts_permutes(s: Seq<u64>)
    ensures
        sort_amounts(s).to_multiset() == s.to_multiset(),
    decreases s.len(),
{
    broadcast use vstd::multiset::group_multiset_axioms;
    broadcast use vstd::seq_lib::group_to_multiset_ensures;

    if s.len() > 0 {
        let t = sort_amounts(s.drop_last());
        lemma_sort_amounts_permutes(s.drop_last());
        lemma_lead_below_bound(t, s.last());
        vstd::seq_lib::to_multiset_insert(t, lead_below(t, s.last()), s.last());
        vstd::seq_lib::to_multiset_build(s.drop_last(), s.last());
        assert(s.drop_last().push(s.last()) =~= s);
    }
}

/// The order of a successful ordinal plan: the fee is its single, last fee
/// step; every ordinal output comes before every auxiliary input; the
/// auxiliary inputs appear in their declared order (when they bring any
/// sats); and the payout steps pay exactly the requested payouts, each once,
/// in some order.
pub proof fn lemma_output_plan_order(
    r: Seq<(u64, u64)>,
    payouts: Seq<u64>,
    payins: Seq<u64>,
    fees: u64,
    ords: Seq<u64>,
)
    requires
        output_plan_spec(r, payouts, payins, fees, ords) is Ok,
    ensures
        ({
            let steps = output_plan_spec(r, payouts, payins, fees, ords)->Ok_0;
            &&& steps.len() > 0 && steps.last() == PlanStep::Fee(fees)
            &&& forall|j: int| 0 <= j < steps.len() - 1 ==> !(#[trigger] steps[j] is Fee)
            &&& forall|i: int, j: int|
                0 <= i < steps.len() && 0 <= j < steps.len() && #[trigger] steps[i] is Ordinal
                    && #[trigger] steps[j] is PayIn ==> i < j
            &&& payins_of(steps) == (if checked_sum(payins)->Ok_0 > 0 {
                payins
            } else {
                Seq::<u64>::empty()
            })
            &&& payouts_of(steps).to_multiset() == payouts.to_multiset()
        }),
{
    broadcast use vstd::multiset::group_multiset_axioms;
    broadcast use vstd::seq_lib::group_to_multiset_ensures;

    lemma_output_plan_accounts(r, payouts, payins, fees, ords);
    let known = ranges_sum(r);
    let pin = checked_sum(payins)->Ok_0;
    let pout = checked_sum(payouts)->Ok_0;
    lemma_checked_sum_bounds(payins);
    lemma_checked_sum_bounds(payouts);
    let (ps, req) = locate(r, known, ords, pout + fees)->Ok_0;
    lemma_locate_entries(r, known, ords, pout + fees);
    let sorted = sort_positions(ps);
    lemma_sort_positions_members(ps);
    assert forall|i: int| #![trigger sorted[i]] 0 <= i < sorted.len() implies sorted[i].1 == sorted[i].0
        + ORDINAL_PADDING + 1 && sorted[i].1 <= known by {
        assert(ps.contains(sorted[i]));
        let m = choose|m: int| 0 <= m < ps.len() && ps[m] == sorted[i];
        assert(ps[m].1 == ps[m].0 + ORDINAL_PADDING + 1);
    }
    let sp = sort_amounts(payouts);
    lemma_place_accounts(sorted, sp);
    lemma_place_permutes(sorted, sp);
    lemma_sort_amounts_permutes(payouts);
    let (steps, rem, cursor) = place(sorted, sp)->Ok_0;
    lemma_ranges_sum_nonneg(r);
    assert(cursor <= known) by {
        if cursor != 0 {
            let i = choose|i: int| 0 <= i < sorted.len() && cursor == sorted[i].1;
            assert(sorted[i].1 <= known);
        }
    }
    let result = output_plan_spec(r, payouts, payins, fees, ords)->Ok_0;
    let tail = known - cursor;
    let g1 = gap(tail, rem);
    let (steps1, rem1, tail1) = if pin > 0 {
        (steps + g1.0 + payin_steps(payins), g1.1, pin)
    } else {
        (steps, rem, tail)
    };
    lemma_gap_fills(tail, rem);
    lemma_gap_permutes(tail, rem);
    lemma_out_sum_payins(payins);
    lemma_payin_steps_payins(payins);
    let g2 = gap(tail1 - fees, rem1);
    lemma_gap_fills(tail1 - fees, rem1);
    lemma_gap_permutes(tail1 - fees, rem1);
    let fee = seq![PlanStep::Fee(fees)];
    assert(fee.drop_last() =~= Seq::<PlanStep>::empty());
    reveal_with_fuel(payins_of, 2);
    reveal_with_fuel(payouts_of, 2);
    assert(payins_of(fee) =~= Seq::<u64>::empty());
    assert(payouts_of(fee) =~= Seq::<u64>::empty());
    assert(result == steps1 + g2.0 + fee);
    assert(g2.1.len() == 0);
    assert(g2.1.to_multiset() =~= Multiset::<u64>::empty());
    lemma_no_payins(steps);
    lemma_kinds_concat(steps1, g2.0);
    lemma_kinds_concat(steps1 + g2.0, fee);
    if pin > 0 {
        lemma_kinds_concat(steps, g1.0);
        lemma_kinds_concat(steps + g1.0, payin_steps(payins));
        assert(payins_of(result) =~= payins);
        assert(payouts_of(result) =~= payouts_of(steps) + payouts_of(g1.0) + payouts_of(g2.0));
        vstd::seq_lib::lemma_multiset_commutative(payouts_of(steps), payouts_of(g1.0));
        vstd::seq_lib::lemma_multiset_commutative(
            payouts_of(steps) + payouts_of(g1.0),
            payouts_of(g2.0),
        );
        assert(payouts_of(result).to_multiset() =~= payouts_of(steps).to_multiset().add(
            payouts_of(g1.0).to_multiset().add(payouts_of(g2.0).to_multiset().add(g2.1.to_multiset())),
        ));
    } else {
        assert(payins_of(result) =~= Seq::<u64>::empty());
        assert(payouts_of(result) =~= payouts_of(steps) + payouts_of(g2.0));
        vstd::seq_lib::lemma_multiset_commutative(payouts_of(steps), payouts_of(g2.0));
        assert(payouts_of(result).to_multiset() =~= payouts_of(steps).to_multiset().add(
            payouts_of(g2.0).to_multiset().add(g2.1.to_multiset()),
        ));
    }
    assert forall|j: int| 0 <= j < result.len() - 1 implies !(#[trigger] result[j] is Fee) by {
        if j < steps.len() {
            assert(result[j] == steps[j]);
        } else if j < steps1.len() {
            if pin > 0 {
                if j < steps.len() + g1.0.len() {
                    assert(result[j] == g1.0[j - steps.len()]);
                } else {
                    assert(result[j] == payin_steps(payins)[j - steps.len() - g1.0.len()]);
                }
            }
        } else {
            assert(result[j] == g2.0[j - steps1.len()]);
        }
    }
    assert forall|i: int, j: int|
        0 <= i < result.len() && 0 <= j < result.len() && #[trigger] result[i] is Ordinal
            && #[trigger] result[j] is PayIn implies i < j by {
        if i >= steps.len() {
            if i < steps1.len() {
                if pin > 0 {
                    if i < steps.len() + g1.0.len() {
                        assert(result[i] == g1.0[i - steps.len()]);
                    } else {
                        assert(result[i] == payin_steps(payins)[i - steps.len() - g1.0.len()]);
                    }
                }
            } else if i < steps1.len() + g2.0.len() {
                assert(result[i] == g2.0[i - steps1.len()]);
            } else {
                assert(result[i] == PlanStep::Fee(fees));
            }
        }
        if j < steps.len() {
            assert(result[j] == steps[j]);
        }
    }
}

} // verus!
