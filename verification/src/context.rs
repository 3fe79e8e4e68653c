//! General non-parameter compilation state required by all contracts.
use vstd::prelude::*;
use crate::error::{CompilationError, OrdinalsFault};
use crate::ordinals::{Ordinal, OrdinalsInfo, ranges_sum, range_values};
use bitcoin::Network;

verus! {

/// Bitcoin network a contract is built for.
#[verifier::external_type_specification]
#[verifier::external_body]
pub struct ExNetwork(Network);

/// One step of a compilation path.
#[derive(Debug)]
pub enum PathFragment {
    /// The funding context of a contract.
    Cloned,
    /// The actions of a contract.
    Action,
    /// The finish functions of a contract.
    FinishFn,
    /// The conditions of an action.
    CondCompIf,
    /// The guards of an action.
    Guard,
    /// Committed next transactions.
    Next,
    /// Suggested transactions.
    Suggested,
    /// The default effect of an action.
    DefaultEffect,
    /// Applied effects of an action.
    Effects,
    /// Metadata generation.
    Metadata,
    /// A numbered branch.
    Branch(u64),
    /// A named branch.
    Named(String),
}

/// A path fragment as a mathematical value.
pub enum FragmentView {
    Cloned,
    Action,
    FinishFn,
    CondCompIf,
    Guard,
    Next,
    Suggested,
    DefaultEffect,
    Effects,
    Metadata,
    Branch(u64),
    Named(Seq<char>),
}

impl View for PathFragment {
    type V = FragmentView;

    open spec fn view(&self) -> FragmentView {
        match self {
            PathFragment::Cloned => FragmentView::Cloned,
            PathFragment::Action => FragmentView::Action,
            PathFragment::FinishFn => FragmentView::FinishFn,
            PathFragment::CondCompIf => FragmentView::CondCompIf,
            PathFragment::Guard => FragmentView::Guard,
            PathFragment::Next => FragmentView::Next,
            PathFragment::Suggested => FragmentView::Suggested,
            PathFragment::DefaultEffect => FragmentView::DefaultEffect,
            PathFragment::Effects => FragmentView::Effects,
            PathFragment::Metadata => FragmentView::Metadata,
            PathFragment::Branch(n) => FragmentView::Branch(*n),
            PathFragment::Named(s) => FragmentView::Named(s@),
        }
    }
}

/// The views of a sequence of fragments.
pub open spec fn fragment_views(s: Seq<PathFragment>) -> Seq<FragmentView> {
    s.map_values(|f: PathFragment| f@)
}

impl PathFragment {
    /// An equal copy of this fragment.
    pub fn duplicate(&self) -> (r: PathFragment)
        ensures
            r@ == self@,
    {
        match self {
            PathFragment::Cloned => PathFragment::Cloned,
            PathFragment::Action => PathFragment::Action,
            PathFragment::FinishFn => PathFragment::FinishFn,
            PathFragment::CondCompIf => PathFragment::CondCompIf,
            PathFragment::Guard => PathFragment::Guard,
            PathFragment::Next => PathFragment::Next,
            PathFragment::Suggested => PathFragment::Suggested,
            PathFragment::DefaultEffect => PathFragment::DefaultEffect,
            PathFragment::Effects => PathFragment::Effects,
            PathFragment::Metadata => PathFragment::Metadata,
            PathFragment::Branch(n) => PathFragment::Branch(*n),
            PathFragment::Named(s) => PathFragment::Named(s.clone()),
        }
    }

    /// Whether two fragments denote the same path step.
    pub fn same(&self, other: &PathFragment) -> (r: bool)
        ensures
            r == (self@ == other@),
    {
        match (self, other) {
            (PathFragment::Cloned, PathFragment::Cloned) => true,
            (PathFragment::Action, PathFragment::Action) => true,
            (PathFragment::FinishFn, PathFragment::FinishFn) => true,
            (PathFragment::CondCompIf, PathFragment::CondCompIf) => true,
            (PathFragment::Guard, PathFragment::Guard) => true,
            (PathFragment::Next, PathFragment::Next) => true,
            (PathFragment::Suggested, PathFragment::Suggested) => true,
            (PathFragment::DefaultEffect, PathFragment::DefaultEffect) => true,
            (PathFragment::Effects, PathFragment::Effects) => true,
            (PathFragment::Metadata, PathFragment::Metadata) => true,
            (PathFragment::Branch(a), PathFragment::Branch(b)) => *a == *b,
            (PathFragment::Named(a), PathFragment::Named(b)) => *a == *b,
            _ => false,
        }
    }
}

pub(crate) fn duplicate_fragments(v: &Vec<PathFragment>) -> (r: Vec<PathFragment>)
    ensures
        fragment_views(r@) == fragment_views(v@),
{
    let mut out: Vec<PathFragment> = Vec::new();
    let mut i: usize = 0;
    while i < v.len()
        invariant
            i <= v@.len(),
            out@.len() == i,
            fragment_views(out@) == fragment_views(v@.take(i as int)),
        decreases v@.len() - i,
    {
        let f = v[i].duplicate();
        let ghost before = out@;
        out.push(f);
        assert(out@ == before.push(f));
        assert forall|k: int| 0 <= k < i + 1 implies #[trigger] fragment_views(out@)[k]
            == fragment_views(v@.take(i + 1))[k] by {
            if k < i {
                assert(fragment_views(before)[k] == fragment_views(v@.take(i as int))[k]);
            }
        }
        assert(fragment_views(out@) =~= fragment_views(v@.take(i + 1)));
        i += 1;
    }
    assert(v@.take(i as int) =~= v@);
    out
}

impl OrdinalsInfo {
    /// An equal copy of these ranges.
    pub fn duplicate(&self) -> (r: OrdinalsInfo)
        ensures
            r@ == self@,
    {
        let mut out: Vec<(Ordinal, Ordinal)> = Vec::new();
        let mut i: usize = 0;
        while i < self.0.len()
            invariant
                i <= self.0@.len(),
                out@.len() == i,
                OrdinalsInfo(out)@ == self@.take(i as int),
            decreases self.0@.len() - i,
        {
            let r = self.0[i];
            let ghost before = out@;
            out.push(r);
            assert(self@[i as int] == (r.0.0, r.1.0));
            assert forall|k: int| 0 <= k < i + 1 implies #[trigger] OrdinalsInfo(out)@[k]
                == self@.take(i + 1)[k] by {
                if k < i {
                    assert(range_values(before)[k] == self@.take(i as int)[k]);
                    assert(out@[k] == before[k]);
                }
            }
            assert(OrdinalsInfo(out)@ =~= self@.take(i + 1));
            i += 1;
        }
        assert(self@.take(i as int) =~= self@);
        OrdinalsInfo(out)
    }
}

/// Split ranges in input order: the first `a` sats, then the rest.
pub open spec fn alloc_fold(s: Seq<(u64, u64)>, a: int) -> Result<
    (Seq<(u64, u64)>, Seq<(u64, u64)>, int),
    OrdinalsFault,
>
    decreases s.len(),
{
    if s.len() == 0 {
        Ok((Seq::empty(), Seq::empty(), a))
    } else {
        match alloc_fold(s.drop_last(), a) {
            Err(e) => Err(e),
            Ok((x, y, amt)) => {
                let (start, end) = s.last();
                if end < start {
                    Err(OrdinalsFault::RangeEndsBeforeStart)
                } else {
                    let sats = end - start;
                    let t = if amt < sats {
                        amt
                    } else {
                        sats
                    };
                    let split = (start + t) as u64;
                    Ok(
                        (
                            if t > 0 {
                                x.push((start, split))
                            } else {
                                x
                            },
                            if t < sats {
                                y.push((split, end))
                            } else {
                                y
                            },
                            amt - t,
                        ),
                    )
                }
            },
        }
    }
}

/// The ranges holding the first `a` sats and the ranges holding the rest.
pub open spec fn allocate_spec(s: Seq<(u64, u64)>, a: int) -> Result<
    (Seq<(u64, u64)>, Seq<(u64, u64)>),
    OrdinalsFault,
> {
    match alloc_fold(s, a) {
        Err(e) => Err(e),
        Ok((x, y, rem)) => if rem != 0 {
            Err(OrdinalsFault::RangesDoNotCover)
        } else {
            Ok((x, y))
        },
    }
}

proof fn lemma_alloc_fold_accounts(s: Seq<(u64, u64)>, a: int)
    requires
        a >= 0,
    ensures
        alloc_fold(s, a) matches Ok((x, y, amt)) ==> {
            &&& 0 <= amt <= a
            &&& ranges_sum(x) == a - amt
            &&& ranges_sum(x) + ranges_sum(y) == ranges_sum(s)
        },
    decreases s.len(),
{
    if s.len() > 0 {
        lemma_alloc_fold_accounts(s.drop_last(), a);
        if let Ok((x, y, amt)) = alloc_fold(s.drop_last(), a) {
            let (start, end) = s.last();
            if end >= start {
                let sats = end - start;
                let t = if amt < sats {
                    amt
                } else {
                    sats
                };
                let split = (start + t) as u64;
                if t > 0 {
                    assert(x.push((start, split)).drop_last() =~= x);
                }
                if t < sats {
                    assert(y.push((split, end)).drop_last() =~= y);
                }
            }
        }
    }
}

/// Splitting ranges keeps every sat: the first part holds exactly `a` sats
/// and both parts together hold all of them.
pub proof fn lemma_allocate_preserves_sats(s: Seq<(u64, u64)>, a: int)
    requires
        a >= 0,
        allocate_spec(s, a) is Ok,
    ensures
        ranges_sum(allocate_spec(s, a)->Ok_0.0) == a,
        ranges_sum(allocate_spec(s, a)->Ok_0.0) + ranges_sum(allocate_spec(s, a)->Ok_0.1)
            == ranges_sum(s),
{
    lemma_alloc_fold_accounts(s, a);
}

/// Split ordinal ranges into the first `a` sats and the remaining sats.
pub fn allocate_ordinals(a: u64, ords: &OrdinalsInfo) -> (r: Result<
    (OrdinalsInfo, OrdinalsInfo),
    CompilationError,
>)
    ensures
        match allocate_spec(ords@, a as int) {
            Ok((x, y)) => r matches Ok((p, q)) && p@ == x && q@ == y,
            Err(e) => r == Err::<(OrdinalsInfo, OrdinalsInfo), CompilationError>(
                CompilationError::OrdinalsError(e),
            ),
        },
{
    let mut amt = a;
    let mut taken: Vec<(Ordinal, Ordinal)> = Vec::new();
    let mut rest: Vec<(Ordinal, Ordinal)> = Vec::new();
    let mut i: usize = 0;
    assert(OrdinalsInfo(taken)@ =~= Seq::<(u64, u64)>::empty());
    assert(OrdinalsInfo(rest)@ =~= Seq::<(u64, u64)>::empty());
    assert(ords@.take(0) =~= Seq::<(u64, u64)>::empty());
    while i < ords.0.len()
        invariant
            i <= ords.0@.len(),
            alloc_fold(ords@.take(i as int), a as int) == Ok::<
                (Seq<(u64, u64)>, Seq<(u64, u64)>, int),
                OrdinalsFault,
            >((OrdinalsInfo(taken)@, OrdinalsInfo(rest)@, amt as int)),
        decreases ords.0@.len() - i,
    {
        let (start, end) = ords.0[i];
        assert(ords@[i as int] == (start.0, end.0));
        assert(ords@.take(i + 1).drop_last() =~= ords@.take(i as int));
        assert(ords@.take(i + 1).last() == (start.0, end.0));
        if end.0 < start.0 {
            proof {
                lemma_alloc_fold_stops(ords@, i + 1, a as int);
            }
            return Err(CompilationError::OrdinalsError(OrdinalsFault::RangeEndsBeforeStart));
        }
        let sats = end.0 - start.0;
        let t = if amt < sats {
            amt
        } else {
            sats
        };
        let split = Ordinal(start.0 + t);
        let ghost tv = OrdinalsInfo(taken)@;
        let ghost rv = OrdinalsInfo(rest)@;
        if t > 0 {
            let ghost tb = taken@;
            taken.push((start, split));
            assert forall|k: int| 0 <= k < tb.len() + 1 implies #[trigger] OrdinalsInfo(taken)@[k]
                == tv.push((start.0, split.0))[k] by {
                if k < tb.len() {
                    assert(taken@[k] == tb[k]);
                }
            }
            assert(OrdinalsInfo(taken)@ =~= tv.push((start.0, split.0)));
        }
        if t < sats {
            let ghost rb = rest@;
            rest.push((split, end));
            assert forall|k: int| 0 <= k < rb.len() + 1 implies #[trigger] OrdinalsInfo(rest)@[k]
                == rv.push((split.0, end.0))[k] by {
                if k < rb.len() {
                    assert(rest@[k] == rb[k]);
                }
            }
            assert(OrdinalsInfo(rest)@ =~= rv.push((split.0, end.0)));
        }
        amt = amt - t;
        i += 1;
    }
    assert(ords@.take(i as int) =~= ords@);
    if amt != 0 {
        return Err(CompilationError::OrdinalsError(OrdinalsFault::RangesDoNotCover));
    }
    Ok((OrdinalsInfo(taken), OrdinalsInfo(rest)))
}

proof fn lemma_alloc_fold_stops(s: Seq<(u64, u64)>, i: int, a: int)
    requires
        0 <= i <= s.len(),
        alloc_fold(s.take(i), a) is Err,
    ensures
        alloc_fold(s, a) == alloc_fold(s.take(i), a),
    decreases s.len() - i,
{
    if i < s.len() {
        assert(s.take(i + 1).drop_last() =~= s.take(i));
        lemma_alloc_fold_stops(s, i + 1, a);
    } else {
        assert(s.take(i) =~= s);
    }
}

} // verus!

verus! {

/// The compilation state a context tracks, as mathematical values.
pub struct ContextView {
    pub network: Network,
    pub funds: u64,
    pub path: Seq<FragmentView>,
    pub derived: Seq<FragmentView>,
    pub ordinals: Option<Seq<(u64, u64)>>,
}

/// Context is used to track state during compilation such as remaining value.
#[derive(Debug)]
pub struct Context {
    available_funds: u64,
    /// Which network is the contract building for?
    pub network: Network,
    path: Vec<PathFragment>,
    already_derived: Vec<PathFragment>,
    ordinals_info: Option<OrdinalsInfo>,
}

/// The view of optional ordinal ranges.
pub open spec fn ordinals_view(o: Option<OrdinalsInfo>) -> Option<Seq<(u64, u64)>> {
    match o {
        Some(info) => Some(info@),
        None => None,
    }
}

impl View for Context {
    type V = ContextView;

    closed spec fn view(&self) -> ContextView {
        ContextView {
            network: self.network,
            funds: self.available_funds,
            path: fragment_views(self.path@),
            derived: fragment_views(self.already_derived@),
            ordinals: ordinals_view(self.ordinals_info),
        }
    }
}

fn duplicate_ordinals(o: &Option<OrdinalsInfo>) -> (r: Option<OrdinalsInfo>)
    ensures
        ordinals_view(r) == ordinals_view(*o),
{
    match o {
        Some(info) => Some(info.duplicate()),
        None => None,
    }
}

impl Context {
    /// Create a context instance. Should only happen once, at the very top level.
    pub fn new(
        network: Network,
        available_funds: u64,
        path: Vec<PathFragment>,
        ordinals_info: Option<OrdinalsInfo>,
    ) -> (r: Self)
        ensures
            r@.funds == available_funds,
            r@.path == fragment_views(path@),
            r@.derived == Seq::<FragmentView>::empty(),
            r@.ordinals == ordinals_view(ordinals_info),
            r@.network == network,
    {
        Context {
            available_funds,
            network,
            path,
            already_derived: Vec::new(),
            ordinals_info,
        }
    }

    /// Borrow the ordinals info.
    pub fn get_ordinals(&self) -> (r: &Option<OrdinalsInfo>)
        ensures
            ordinals_view(*r) == self@.ordinals,
    {
        &self.ordinals_info
    }

    /// This context's path.
    pub fn path(&self) -> (r: &Vec<PathFragment>)
        ensures
            fragment_views(r@) == self@.path,
    {
        &self.path
    }

    /// Return the available funds.
    pub fn funds(&self) -> (r: u64)
        ensures
            r == self@.funds,
    {
        self.available_funds
    }

    /// Derive a new contextual path with a numbered branch.
    pub fn derive_num(&mut self, path: u64) -> (r: Result<Self, CompilationError>)
        ensures
            derived_spec(old(self)@, final(self)@, FragmentView::Branch(path), r),
    {
        self.derive(PathFragment::Branch(path))
    }

    /// Derive a new contextual path. Each fragment may be derived once.
    pub fn derive(&mut self, path: PathFragment) -> (r: Result<Self, CompilationError>)
        ensures
            derived_spec(old(self)@, final(self)@, path@, r),
    {
        let mut i: usize = 0;
        while i < self.already_derived.len()
            invariant
                i <= self.already_derived@.len(),
                forall|k: int| 0 <= k < i ==> #[trigger] self@.derived[k] != path@,
            decreases self.already_derived@.len() - i,
        {
            if self.already_derived[i].same(&path) {
                assert(self@.derived[i as int] == path@);
                return Err(CompilationError::ContexPathAlreadyDerived);
            }
            i += 1;
        }
        assert(!self@.derived.contains(path@));
        let mut new_path = duplicate_fragments(&self.path);
        let remembered = path.duplicate();
        let ghost derived_before = self.already_derived@;
        self.already_derived.push(remembered);
        assert(fragment_views(self.already_derived@) =~= fragment_views(derived_before).push(
            path@,
        ));
        let ghost path_before = new_path@;
        new_path.push(path);
        assert(fragment_views(new_path@) =~= fragment_views(path_before).push(path@));
        let child = Context {
            available_funds: self.available_funds,
            network: self.network,
            path: new_path,
            already_derived: Vec::new(),
            ordinals_info: duplicate_ordinals(&self.ordinals_info),
        };
        assert(child@.derived =~= Seq::<FragmentView>::empty());
        Ok(child)
    }

    /// Return a context with the new amount if amount is smaller or equal to
    /// available; tracked ordinals keep the first `amount` sats.
    pub fn with_amount(self, amount: u64) -> (r: Result<Self, CompilationError>)
        ensures
            with_amount_spec(self@, amount, r),
    {
        if self.available_funds < amount {
            return Err(CompilationError::OutOfFunds);
        }
        let ordinals = match &self.ordinals_info {
            Some(o) => match allocate_ordinals(amount, o) {
                Ok((allocated, _)) => Some(allocated),
                Err(e) => return Err(e),
            },
            None => None,
        };
        Ok(Context {
            available_funds: amount,
            network: self.network,
            path: self.path,
            already_derived: self.already_derived,
            ordinals_info: ordinals,
        })
    }

    /// Decrease the amount available in this context; tracked ordinals keep
    /// the sats after the first `amount`.
    pub fn spend_amount(self, amount: u64) -> (r: Result<Self, CompilationError>)
        ensures
            spend_amount_spec(self@, amount, r),
    {
        if self.available_funds < amount {
            return Err(CompilationError::OutOfFunds);
        }
        let ordinals = match &self.ordinals_info {
            Some(o) => match allocate_ordinals(amount, o) {
                Ok((_, remaining)) => Some(remaining),
                Err(e) => return Err(e),
            },
            None => None,
        };
        Ok(Context {
            available_funds: self.available_funds - amount,
            network: self.network,
            path: self.path,
            already_derived: self.already_derived,
            ordinals_info: ordinals,
        })
    }

    /// Add external funds whose ordinal ranges are unknown.
    ///
    /// Allocate all tracked input sats first. Clearing exhausted tracking at
    /// this boundary prevents unknown inputs from acquiring invented ordinal
    /// identities or shifting a known ordinal into the wrong output.
    pub fn add_amount(self, amount: u64) -> (r: Result<Self, CompilationError>)
        ensures
            add_amount_spec(self@, amount, r),
    {
        let available = match self.available_funds.checked_add(amount) {
            Some(a) => a,
            None => return Err(CompilationError::AvailableFundsOverflow),
        };
        let mut ordinals_info = self.ordinals_info;
        if amount != 0 {
            if let Some(ordinals) = &ordinals_info {
                if self.available_funds != 0 || ordinals.0.len() != 0 {
                    return Err(CompilationError::OrdinalsError(OrdinalsFault::TrackedSatsRemain));
                }
                ordinals_info = None;
            }
        }
        Ok(Context {
            available_funds: available,
            network: self.network,
            path: self.path,
            already_derived: self.already_derived,
            ordinals_info,
        })
    }
}

/// What `derive` does: refuse a fragment already derived; otherwise remember
/// it and return a fresh child at the extended path with the same funds and
/// ordinals.
pub open spec fn derived_spec(
    before: ContextView,
    after: ContextView,
    f: FragmentView,
    r: Result<Context, CompilationError>,
) -> bool {
    if before.derived.contains(f) {
        &&& after == before
        &&& r == Err::<Context, CompilationError>(CompilationError::ContexPathAlreadyDerived)
    } else {
        &&& after == ContextView { derived: before.derived.push(f), ..before }
        &&& r matches Ok(c) && c@ == ContextView {
            path: before.path.push(f),
            derived: Seq::empty(),
            ..before
        }
    }
}

/// What `with_amount` returns.
pub open spec fn with_amount_spec(
    before: ContextView,
    amount: u64,
    r: Result<Context, CompilationError>,
) -> bool {
    if before.funds < amount {
        r == Err::<Context, CompilationError>(CompilationError::OutOfFunds)
    } else {
        match before.ordinals {
            None => r matches Ok(c) && c@ == ContextView { funds: amount, ..before },
            Some(o) => match allocate_spec(o, amount as int) {
                Err(e) => r == Err::<Context, CompilationError>(CompilationError::OrdinalsError(e)),
                Ok((x, _)) => r matches Ok(c) && c@ == ContextView {
                    funds: amount,
                    ordinals: Some(x),
                    ..before
                },
            },
        }
    }
}

/// What `spend_amount` returns.
pub open spec fn spend_amount_spec(
    before: ContextView,
    amount: u64,
    r: Result<Context, CompilationError>,
) -> bool {
    if before.funds < amount {
        r == Err::<Context, CompilationError>(CompilationError::OutOfFunds)
    } else {
        match before.ordinals {
            None => r matches Ok(c) && c@ == ContextView {
                funds: (before.funds - amount) as u64,
                ..before
            },
            Some(o) => match allocate_spec(o, amount as int) {
                Err(e) => r == Err::<Context, CompilationError>(CompilationError::OrdinalsError(e)),
                Ok((_, y)) => r matches Ok(c) && c@ == ContextView {
                    funds: (before.funds - amount) as u64,
                    ordinals: Some(y),
                    ..before
                },
            },
        }
    }
}

/// The context after spending `amount`, or the error that stops it.
pub open spec fn spent_view(before: ContextView, amount: u64) -> Result<ContextView, CompilationError> {
    if before.funds < amount {
        Err(CompilationError::OutOfFunds)
    } else {
        match before.ordinals {
            None => Ok(ContextView { funds: (before.funds - amount) as u64, ..before }),
            Some(o) => match allocate_spec(o, amount as int) {
                Err(e) => Err(CompilationError::OrdinalsError(e)),
                Ok((_, y)) => Ok(
                    ContextView { funds: (before.funds - amount) as u64, ordinals: Some(y), ..before },
                ),
            },
        }
    }
}

/// What `add_amount` returns.
pub open spec fn add_amount_spec(
    before: ContextView,
    amount: u64,
    r: Result<Context, CompilationError>,
) -> bool {
    if before.funds + amount > u64::MAX {
        r == Err::<Context, CompilationError>(CompilationError::AvailableFundsOverflow)
    } else if amount != 0 && before.ordinals is Some && (before.funds != 0
        || before.ordinals->Some_0.len() != 0) {
        r == Err::<Context, CompilationError>(
            CompilationError::OrdinalsError(OrdinalsFault::TrackedSatsRemain),
        )
    } else {
        r matches Ok(c) && c@ == ContextView {
            funds: (before.funds + amount) as u64,
            ordinals: if amount != 0 {
                None
            } else {
                before.ordinals
            },
            ..before
        }
    }
}

} // verus!
