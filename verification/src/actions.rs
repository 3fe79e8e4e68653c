//! Conditions controlling whether an action is compiled and whether it may
//! return no templates.
use vstd::prelude::*;
use crate::context::{Context, ContextView, FragmentView, PathFragment};
use crate::error::CompilationError;

verus! {

/// The message recorded when `Required` and `Never` meet.
pub open spec fn required_never_conflict() -> Seq<char> {
    "Never and Required incompatible"@
}

/// The conflict message as an owned string.
pub fn required_never_conflict_message() -> (s: String)
    ensures
        s@ == required_never_conflict(),
{
    String::from_str("Never and Required incompatible")
}

/// Conditional Compilation function has specified that compilation of this
/// function should be required or not.
#[derive(Clone, Debug, PartialEq, Eq)]
pub enum ConditionalCompileType {
    /// May proceed without calling this function at all
    Skippable,
    /// If no errors are returned, and no txtmpls are returned,
    /// it is not an error and the branch is pruned.
    Nullable,
    /// The default condition if no ConditionallyCompileIf function is set, the
    /// branch is present and it is required.
    Required,
    /// This branch must never be used
    Never,
    /// No Constraint, nothing is changed by this rule
    NoConstraint,
    /// The branch should always trigger an error, with some reasons
    Fail(Vec<String>),
}

/// The decision kind of a condition, forgetting failure diagnostics.
#[derive(PartialEq, Eq, Structural, Clone, Copy, Debug)]
pub enum DecisionKind {
    Skippable,
    Nullable,
    Required,
    Never,
    NoConstraint,
    Fail,
}

impl ConditionalCompileType {
    /// The decision kind of this condition.
    pub open spec fn kind(&self) -> DecisionKind {
        match self {
            ConditionalCompileType::Skippable => DecisionKind::Skippable,
            ConditionalCompileType::Nullable => DecisionKind::Nullable,
            ConditionalCompileType::Required => DecisionKind::Required,
            ConditionalCompileType::Never => DecisionKind::Never,
            ConditionalCompileType::NoConstraint => DecisionKind::NoConstraint,
            ConditionalCompileType::Fail(_) => DecisionKind::Fail,
        }
    }

    /// The diagnostics carried by a failure; empty for every other decision.
    pub open spec fn messages(&self) -> Seq<Seq<char>> {
        match self {
            ConditionalCompileType::Fail(v) => v@.map_values(|m: String| m@),
            _ => Seq::empty(),
        }
    }
}

/// The precedence of two decision kinds:
///     Fail > non-Fail ==> Fail
///     forall X. X > NoConstraint ==> X
///     Required > {Skippable, Nullable} ==> Required
///     Skippable > Nullable ==> Skippable
///     Never >< Required ==> Fail
///     Never > {Skippable, Nullable}  ==> Never
pub open spec fn merge_kind(a: DecisionKind, b: DecisionKind) -> DecisionKind {
    if a == DecisionKind::NoConstraint {
        b
    } else if b == DecisionKind::NoConstraint {
        a
    } else if a == DecisionKind::Fail || b == DecisionKind::Fail {
        DecisionKind::Fail
    } else if (a == DecisionKind::Required && b == DecisionKind::Never) || (a
        == DecisionKind::Never && b == DecisionKind::Required) {
        DecisionKind::Fail
    } else if a == DecisionKind::Never || b == DecisionKind::Never {
        DecisionKind::Never
    } else if a == DecisionKind::Required || b == DecisionKind::Required {
        DecisionKind::Required
    } else if a == DecisionKind::Skippable || b == DecisionKind::Skippable {
        DecisionKind::Skippable
    } else {
        DecisionKind::Nullable
    }
}

/// The diagnostics of a merge: both failures' messages in operand order, the
/// single failure's messages, or the conflict message when `Required` meets `Never`.
pub open spec fn merge_messages(a: ConditionalCompileType, b: ConditionalCompileType) -> Seq<Seq<char>> {
    if a.kind() == DecisionKind::NoConstraint {
        b.messages()
    } else if b.kind() == DecisionKind::NoConstraint {
        a.messages()
    } else if a.kind() == DecisionKind::Fail && b.kind() == DecisionKind::Fail {
        a.messages() + b.messages()
    } else if a.kind() == DecisionKind::Fail {
        a.messages()
    } else if b.kind() == DecisionKind::Fail {
        b.messages()
    } else if merge_kind(a.kind(), b.kind()) == DecisionKind::Fail {
        seq![required_never_conflict()]
    } else {
        Seq::empty()
    }
}

impl ConditionalCompileType {
    /// Merge two conditional compilation decisions.
    ///
    /// Decision kinds are associative and commutative. Diagnostics preserve
    /// operand order, so those properties do not apply to the message lists:
    /// an existing `Fail` absorbs a later non-failing operand and its constraints.
    pub fn merge(self, other: Self) -> (r: Self)
        ensures
            r.kind() == merge_kind(self.kind(), other.kind()),
            r.messages() == merge_messages(self, other),
    {
        match (self, other) {
            (ConditionalCompileType::NoConstraint, x) => x,
            (x, ConditionalCompileType::NoConstraint) => x,
            (ConditionalCompileType::Fail(mut v), ConditionalCompileType::Fail(mut v2)) => {
                v.append(&mut v2);
                ConditionalCompileType::Fail(v)
            },
            (ConditionalCompileType::Fail(v), _) => ConditionalCompileType::Fail(v),
            (_, ConditionalCompileType::Fail(v)) => ConditionalCompileType::Fail(v),
            (ConditionalCompileType::Required, ConditionalCompileType::Never)
            | (ConditionalCompileType::Never, ConditionalCompileType::Required) => {
                let mut l = Vec::new();
                l.push(required_never_conflict_message());
                ConditionalCompileType::Fail(l)
            },
            (ConditionalCompileType::Never, _) | (_, ConditionalCompileType::Never) => {
                ConditionalCompileType::Never
            },
            (ConditionalCompileType::Required, _) | (_, ConditionalCompileType::Required) => {
                ConditionalCompileType::Required
            },
            (ConditionalCompileType::Skippable, _) | (_, ConditionalCompileType::Skippable) => {
                ConditionalCompileType::Skippable
            },
            (ConditionalCompileType::Nullable, ConditionalCompileType::Nullable) => {
                ConditionalCompileType::Nullable
            },
        }
    }
}

/// `NoConstraint` is an identity for merging on either side.
pub proof fn lemma_merge_identity(a: DecisionKind)
    ensures
        merge_kind(DecisionKind::NoConstraint, a) == a,
        merge_kind(a, DecisionKind::NoConstraint) == a,
{
}

/// Merging decision kinds is commutative.
pub proof fn lemma_merge_commutative(a: DecisionKind, b: DecisionKind)
    ensures
        merge_kind(a, b) == merge_kind(b, a),
{
}

/// Merging decision kinds is associative.
pub proof fn lemma_merge_associative(a: DecisionKind, b: DecisionKind, c: DecisionKind)
    ensures
        merge_kind(merge_kind(a, b), c) == merge_kind(a, merge_kind(b, c)),
{
}

/// An explicit failure absorbs every other decision.
pub proof fn lemma_merge_fail_absorbs(a: DecisionKind)
    ensures
        merge_kind(DecisionKind::Fail, a) == DecisionKind::Fail,
        merge_kind(a, DecisionKind::Fail) == DecisionKind::Fail,
{
}


/// The compiler-owned relationship between an action and its templates.
#[derive(Clone, Copy, Debug, PartialEq, Eq, Structural)]
pub enum TemplateKind {
    /// Every returned transaction is committed by the configured covenant.
    Committed,
    /// Returned transactions are proposals under the action's fixed policy.
    Suggested,
}

/// Type tag for an action that can be called through the web API.
#[derive(Debug)]
pub struct WebAPIEnabled;

/// Type tag for an action that cannot be called through the web API.
#[derive(Debug)]
pub struct WebAPIDisabled;

/// ThenFuncTypeTag is used as the args type of a ThenFunc.
#[derive(Debug)]
pub struct ThenFuncTypeTag(pub(crate) ());

impl ThenFuncTypeTag {
    /// A tag for calling a ThenFunc.
    pub fn new() -> (r: Self) {
        ThenFuncTypeTag(())
    }

    /// Coercing the tag maps it onto itself.
    pub fn coerce_args(f: Self) -> (r: Result<Self, CompilationError>)
        ensures
            r == Ok::<Self, CompilationError>(f),
    {
        Ok(f)
    }
}

/// A condition a contract declares on one of its actions, evaluated with the
/// contract and a fresh context.
pub trait CompileCondition<T> {
    /// Whether evaluating with this contract in a context with this view may
    /// give this decision; an implementation that states nothing admits any.
    closed spec fn evaluates_to(&self, contract: &T, ctx: ContextView, r: ConditionalCompileType) -> bool {
        true
    }

    /// Decide whether the action is compiled.
    fn evaluate(&self, contract: &T, ctx: Context) -> (r: ConditionalCompileType)
        ensures
            self.evaluates_to(contract, ctx@, r),
    ;
}

/// The context a condition at `slot` is evaluated in: the action's context
/// extended by `Branch(slot)`, with nothing derived yet.
pub open spec fn slot_context(start: ContextView, slot: int) -> ContextView {
    ContextView {
        path: start.path.push(FragmentView::Branch(slot as u64)),
        derived: Seq::empty(),
        ..start
    }
}

/// The conditions declared on an action, by slot; an empty slot declares none.
pub struct CCILWrapper<'a, F>(pub &'a [Option<F>]);

/// Which slots hold a condition.
pub open spec fn occupied<F>(slots: Seq<Option<F>>) -> Seq<bool> {
    slots.map_values(|o: Option<F>| o is Some)
}

/// Number of occupied slots among the first `k`.
pub open spec fn occupied_count(slots: Seq<bool>, k: int) -> int
    decreases k,
{
    if k <= 0 {
        0
    } else {
        occupied_count(slots, k - 1) + if slots[k - 1] {
            1int
        } else {
            0
        }
    }
}

/// The branch fragments of the occupied slots among the first `k`, in order.
pub open spec fn occupied_branches(slots: Seq<bool>, k: int) -> Seq<FragmentView>
    decreases k,
{
    if k <= 0 {
        Seq::empty()
    } else if slots[k - 1] {
        occupied_branches(slots, k - 1).push(FragmentView::Branch((k - 1) as u64))
    } else {
        occupied_branches(slots, k - 1)
    }
}

/// The first occupied slot below `k` whose branch was already derived.
pub open spec fn first_taken(slots: Seq<bool>, derived: Seq<FragmentView>, k: int) -> Option<int>
    decreases k,
{
    if k <= 0 {
        None
    } else {
        match first_taken(slots, derived, k - 1) {
            Some(j) => Some(j),
            None => if slots[k - 1] && derived.contains(FragmentView::Branch((k - 1) as u64)) {
                Some(k - 1)
            } else {
                None
            },
        }
    }
}

/// Some result has this kind.
pub open spec fn any_kind(rs: Seq<ConditionalCompileType>, k: DecisionKind) -> bool {
    exists|i: int| 0 <= i < rs.len() && #[trigger] rs[i].kind() == k
}

/// All failure diagnostics, in result order.
pub open spec fn fail_messages(rs: Seq<ConditionalCompileType>) -> Seq<Seq<char>>
    decreases rs.len(),
{
    if rs.len() == 0 {
        Seq::empty()
    } else {
        fail_messages(rs.drop_last()) + rs.last().messages()
    }
}

/// A decision that neither requires, forbids nor fails.
pub open spec fn is_soft(k: DecisionKind) -> bool {
    k == DecisionKind::Skippable || k == DecisionKind::Nullable || k == DecisionKind::NoConstraint
}

/// The merge of the soft decisions among the results.
pub open spec fn soft_kind(rs: Seq<ConditionalCompileType>) -> DecisionKind
    decreases rs.len(),
{
    if rs.len() == 0 {
        DecisionKind::NoConstraint
    } else if is_soft(rs.last().kind()) {
        merge_kind(soft_kind(rs.drop_last()), rs.last().kind())
    } else {
        soft_kind(rs.drop_last())
    }
}

/// The decision the results combine to: any failure, or a requirement that
/// meets a prohibition, fails; otherwise a requirement, then a prohibition,
/// then the merged soft decisions.
pub open spec fn combined_kind(rs: Seq<ConditionalCompileType>) -> DecisionKind {
    if any_kind(rs, DecisionKind::Fail) || (any_kind(rs, DecisionKind::Required) && any_kind(
        rs,
        DecisionKind::Never,
    )) {
        DecisionKind::Fail
    } else if any_kind(rs, DecisionKind::Required) {
        DecisionKind::Required
    } else if any_kind(rs, DecisionKind::Never) {
        DecisionKind::Never
    } else {
        soft_kind(rs)
    }
}

/// The diagnostics the results combine to: every failure's, in order, then
/// the conflict once when a requirement meets a prohibition.
pub open spec fn combined_messages(rs: Seq<ConditionalCompileType>) -> Seq<Seq<char>> {
    fail_messages(rs) + if any_kind(rs, DecisionKind::Required) && any_kind(
        rs,
        DecisionKind::Never,
    ) {
        seq![required_never_conflict()]
    } else {
        Seq::<Seq<char>>::empty()
    }
}

/// An explicit failure cannot hide a contradiction between a requirement
/// and a prohibition: the combined decision fails and its diagnostics end
/// with the conflict, after every failure's own.
pub proof fn lemma_failure_keeps_conflict(rs: Seq<ConditionalCompileType>)
    requires
        any_kind(rs, DecisionKind::Required),
        any_kind(rs, DecisionKind::Never),
    ensures
        combined_kind(rs) == DecisionKind::Fail,
        combined_messages(rs).len() > 0,
        combined_messages(rs).last() == required_never_conflict(),
        combined_messages(rs).drop_last() == fail_messages(rs),
{
    assert(combined_messages(rs).drop_last() =~= fail_messages(rs));
}

proof fn lemma_soft_kind_is_soft(rs: Seq<ConditionalCompileType>)
    ensures
        is_soft(soft_kind(rs)),
    decreases rs.len(),
{
    if rs.len() > 0 {
        lemma_soft_kind_is_soft(rs.drop_last());
    }
}

proof fn lemma_any_kind_push(rs: Seq<ConditionalCompileType>, c: ConditionalCompileType, k: DecisionKind)
    ensures
        any_kind(rs.push(c), k) == (any_kind(rs, k) || c.kind() == k),
{
    if any_kind(rs, k) {
        let i = choose|i: int| 0 <= i < rs.len() && #[trigger] rs[i].kind() == k;
        assert(rs.push(c)[i] == rs[i]);
    }
    if c.kind() == k {
        assert(rs.push(c)[rs.len() as int] == c);
    }
    if any_kind(rs.push(c), k) {
        let i = choose|i: int| 0 <= i < rs.len() + 1 && #[trigger] rs.push(c)[i].kind() == k;
        if i < rs.len() {
            assert(rs[i] == rs.push(c)[i]);
        }
    }
}

impl<'a, F> CCILWrapper<'a, F> {
    /// The decisions `rs` are what the conditions of the occupied slots below
    /// `k` returned, in slot order, each evaluated in its slot's context
    /// derived from `start`.
    pub open spec fn evaluated_prefix<T>(
        &self,
        contract: &T,
        start: ContextView,
        k: int,
        rs: Seq<ConditionalCompileType>,
    ) -> bool where F: CompileCondition<T>
        decreases k,
    {
        if k <= 0 {
            rs.len() == 0
        } else if self.0@[k - 1] is None {
            self.evaluated_prefix(contract, start, k - 1, rs)
        } else {
            &&& rs.len() > 0
            &&& self.evaluated_prefix(contract, start, k - 1, rs.drop_last())
            &&& (self.0@[k - 1]->Some_0).evaluates_to(contract, slot_context(start, k - 1), rs.last())
        }
    }
}

impl<'a, F> CCILWrapper<'a, F> {
    /// Evaluate the present conditions at their declared slots, each in a
    /// context derived at `Branch(slot)`. Explicit failures keep declaration
    /// order; a requirement that meets a prohibition is reported once, after
    /// them. A slot whose branch was already derived stops evaluation with
    /// that error.
    pub fn assemble<T>(&self, self_ref: &T, context: &mut Context) -> (r: Result<
        ConditionalCompileType,
        CompilationError,
    >) where F: CompileCondition<T>
        ensures
            ({
                let slots = occupied(self.0@);
                let n = slots.len() as int;
                match first_taken(slots, old(context)@.derived, n) {
                    Some(j) => r == Err::<ConditionalCompileType, CompilationError>(
                        CompilationError::ContexPathAlreadyDerived,
                    ) && final(context)@ == (ContextView {
                        derived: old(context)@.derived + occupied_branches(slots, j),
                        ..old(context)@
                    }),
                    None => final(context)@ == (ContextView {
                        derived: old(context)@.derived + occupied_branches(slots, n),
                        ..old(context)@
                    }) && (r matches Ok(c) && exists|rs: Seq<ConditionalCompileType>|
                        rs.len() == occupied_count(slots, n) && #[trigger] self.evaluated_prefix(
                            self_ref,
                            old(context)@,
                            n,
                            rs,
                        ) && c.kind() == combined_kind(rs) && c.messages() == combined_messages(rs)),
                }
            }),
    {
        let ghost slots = occupied(self.0@);
        let ghost start = context@;
        let mut results: Vec<ConditionalCompileType> = Vec::new();
        let mut slot: usize = 0;
        while slot < self.0.len()
            invariant
                slot <= self.0@.len(),
                slots == occupied(self.0@),
                start == old(context)@,
                first_taken(slots, start.derived, slot as int) is None,
                context@ == (ContextView {
                    derived: start.derived + occupied_branches(slots, slot as int),
                    ..start
                }),
                results@.len() == occupied_count(slots, slot as int),
                self.evaluated_prefix(self_ref, start, slot as int, results@),
            decreases self.0@.len() - slot,
        {
            assert(slots[slot as int] == (self.0@[slot as int] is Some));
            match &self.0[slot] {
                None => {
                    assert(occupied_branches(slots, slot + 1) == occupied_branches(slots, slot as int));
                },
                Some(condition) => {
                    proof {
                        lemma_branches_distinct(slots, start.derived, slot as int);
                    }
                    let ghost here = FragmentView::Branch(slot as u64);
                    let ghost earlier = occupied_branches(slots, slot as int);
                    let child = match context.derive(PathFragment::Branch(slot as u64)) {
                        Ok(c) => c,
                        Err(e) => {
                            assert(start.derived.contains(here)) by {
                                let t = start.derived + earlier;
                                let i = choose|i: int| 0 <= i < t.len() && t[i] == here;
                                if i >= start.derived.len() {
                                    assert(earlier[i - start.derived.len()] == here);
                                    assert(earlier.contains(here));
                                } else {
                                    assert(start.derived[i] == here);
                                }
                            }
                            assert(first_taken(slots, start.derived, slot + 1) == Some(slot as int));
                            proof {
                                lemma_first_taken_stays(slots, start.derived, slot + 1, slots.len() as int);
                            }
                            return Err(e);
                        },
                    };
                    assert(!start.derived.contains(here)) by {
                        if start.derived.contains(here) {
                            let i = choose|i: int| 0 <= i < start.derived.len() && start.derived[i] == here;
                            assert((start.derived + earlier)[i] == here);
                        }
                    }
                    assert(context@.derived =~= start.derived + occupied_branches(slots, slot + 1));
                    let ghost before = results@;
                    assert(child@ == slot_context(start, slot as int));
                    results.push(condition.evaluate(self_ref, child));
                    assert(results@.drop_last() =~= before);
                    assert(self.evaluated_prefix(self_ref, start, slot + 1, results@));
                },
            }
            slot += 1;
        }
        assert(slots.len() == self.0@.len());
        Ok(combine_decisions(results.as_slice()))
    }
}

/// Combine decisions, in order: every failure's diagnostics in order, then
/// the conflict once when a requirement meets a prohibition; the decision
/// fails on either, is otherwise a requirement, then a prohibition, then the
/// merge of the soft decisions.
pub fn combine_decisions(ds: &[ConditionalCompileType]) -> (r: ConditionalCompileType)
    ensures
        r.kind() == combined_kind(ds@),
        r.messages() == combined_messages(ds@),
{
    let ghost all = ds@;
    let mut decision = ConditionalCompileType::NoConstraint;
    let mut required = false;
    let mut never = false;
    let mut errors: Option<Vec<String>> = None;
    let mut i: usize = 0;
    while i < ds.len()
        invariant
            i <= all.len(),
            all == ds@,
            decision.kind() == soft_kind(all.take(i as int)),
            decision.messages() == Seq::<Seq<char>>::empty(),
            required == any_kind(all.take(i as int), DecisionKind::Required),
            never == any_kind(all.take(i as int), DecisionKind::Never),
            errors is Some <==> any_kind(all.take(i as int), DecisionKind::Fail),
            errors matches Some(v) ==> v@.map_values(|m: String| m@) == fail_messages(
                all.take(i as int),
            ),
            errors is None ==> fail_messages(all.take(i as int)) == Seq::<Seq<char>>::empty(),
        decreases all.len() - i,
    {
        let ghost rs = all.take(i as int);
        let result = &ds[i];
        proof {
            assert(all.take(i + 1) =~= rs.push(*result));
            lemma_any_kind_push(rs, *result, DecisionKind::Required);
            lemma_any_kind_push(rs, *result, DecisionKind::Never);
            lemma_any_kind_push(rs, *result, DecisionKind::Fail);
            assert(rs.push(*result).drop_last() =~= rs);
        }
        match result {
            ConditionalCompileType::Required => {
                required = true;
            },
            ConditionalCompileType::Never => {
                never = true;
            },
            ConditionalCompileType::Fail(messages) => {
                let mut copy = copy_messages(messages);
                let ghost added = messages@.map_values(|m: String| m@);
                match errors {
                    Some(mut v) => {
                        let ghost before = v@;
                        v.append(&mut copy);
                        assert(v@.map_values(|m: String| m@) =~= before.map_values(|m: String| m@)
                            + added);
                        errors = Some(v);
                    },
                    None => {
                        assert(copy@.map_values(|m: String| m@) =~= Seq::<Seq<char>>::empty() + added);
                        errors = Some(copy);
                    },
                }
            },
            ConditionalCompileType::Skippable => {
                proof {
                    lemma_soft_kind_is_soft(rs);
                }
                decision = decision.merge(ConditionalCompileType::Skippable);
            },
            ConditionalCompileType::Nullable => {
                proof {
                    lemma_soft_kind_is_soft(rs);
                }
                decision = decision.merge(ConditionalCompileType::Nullable);
            },
            ConditionalCompileType::NoConstraint => {
                proof {
                    lemma_soft_kind_is_soft(rs);
                }
                decision = decision.merge(ConditionalCompileType::NoConstraint);
            },
        }
        i += 1;
    }
    assert(all.take(i as int) =~= all);
    if required && never {
        let conflict = required_never_conflict_message();
        match errors {
            Some(mut v) => {
                let ghost before = v@;
                v.push(conflict);
                assert(v@.map_values(|m: String| m@) =~= before.map_values(|m: String| m@).push(
                    required_never_conflict(),
                ));
                errors = Some(v);
            },
            None => {
                let mut v: Vec<String> = Vec::new();
                v.push(conflict);
                assert(v@.map_values(|m: String| m@) =~= seq![required_never_conflict()]);
                errors = Some(v);
            },
        }
    }
    let combined = match errors {
        Some(messages) => ConditionalCompileType::Fail(messages),
        None => if required {
            ConditionalCompileType::Required
        } else if never {
            ConditionalCompileType::Never
        } else {
            decision
        },
    };
    assert(combined.messages() =~= combined_messages(all));
    combined
}

/// A copy of some messages.
fn copy_messages(v: &Vec<String>) -> (r: Vec<String>)
    ensures
        r@.map_values(|m: String| m@) == v@.map_values(|m: String| m@),
{
    let mut out: Vec<String> = Vec::new();
    let mut i: usize = 0;
    while i < v.len()
        invariant
            i <= v@.len(),
            out@.map_values(|m: String| m@) == v@.take(i as int).map_values(|m: String| m@),
        decreases v@.len() - i,
    {
        let ghost before = out@;
        let m = v[i].clone();
        assert(m@ == v@[i as int]@);
        out.push(m);
        assert(out@ == before.push(m));
        assert(out@.map_values(|m: String| m@) =~= before.map_values(|m: String| m@).push(m@));
        assert(v@.take(i + 1) =~= v@.take(i as int).push(v@[i as int]));
        assert(out@.map_values(|m: String| m@) =~= v@.take(i + 1).map_values(|m: String| m@));
        i += 1;
    }
    assert(v@.take(i as int) =~= v@);
    out
}

proof fn lemma_branches_distinct(slots: Seq<bool>, derived: Seq<FragmentView>, k: int)
    requires
        0 <= k <= u64::MAX,
    ensures
        !occupied_branches(slots, k).contains(FragmentView::Branch(k as u64)),
    decreases k,
{
    if k > 0 {
        lemma_branches_distinct(slots, derived, k - 1);
        assert(!occupied_branches(slots, k - 1).contains(FragmentView::Branch(k as u64))) by {
            lemma_branches_below(slots, k - 1, k);
        }
    }
}

proof fn lemma_branches_below(slots: Seq<bool>, k: int, m: int)
    requires
        0 <= k <= m <= u64::MAX,
    ensures
        !occupied_branches(slots, k).contains(FragmentView::Branch(m as u64)),
    decreases k,
{
    if k > 0 {
        lemma_branches_below(slots, k - 1, m);
        if slots[k - 1] {
            assert(FragmentView::Branch((k - 1) as u64) != FragmentView::Branch(m as u64));
            assert(!occupied_branches(slots, k - 1).push(FragmentView::Branch((k - 1) as u64)).contains(
                FragmentView::Branch(m as u64),
            )) by {
                let t = occupied_branches(slots, k - 1).push(FragmentView::Branch((k - 1) as u64));
                if t.contains(FragmentView::Branch(m as u64)) {
                    let i = choose|i: int| 0 <= i < t.len() && t[i] == FragmentView::Branch(m as u64);
                    if i < t.len() - 1 {
                        assert(occupied_branches(slots, k - 1)[i] == t[i]);
                    }
                }
            }
        }
    }
}

proof fn lemma_first_taken_stays(slots: Seq<bool>, derived: Seq<FragmentView>, k: int, m: int)
    requires
        0 <= k <= m,
        first_taken(slots, derived, k) is Some,
    ensures
        first_taken(slots, derived, m) == first_taken(slots, derived, k),
    decreases m - k,
{
    if m > k {
        lemma_first_taken_stays(slots, derived, k, m - 1);
    }
}

/// How a combined condition decision includes an action.
#[derive(Debug, Clone, Copy, PartialEq, Eq, Structural)]
pub enum ActionInclusion {
    /// The action is not compiled.
    Skip,
    /// The action is compiled, and may produce no template.
    Nullable,
    /// The action is compiled, and a covenant action must produce a template.
    Required,
}

/// How an action's combined decision includes it: a failure stops
/// compilation with its diagnostics; a requirement or no constraint compiles
/// it as required; `Nullable` compiles it as nullable; a skip or a
/// prohibition leaves it out.
pub fn action_inclusion(d: ConditionalCompileType) -> (r: Result<ActionInclusion, CompilationError>)
    ensures
        match d {
            ConditionalCompileType::Fail(v) => r matches Err(CompilationError::ConditionalCompilationFailed(m))
                && m@.map_values(|s: String| s@) == v@.map_values(|s: String| s@),
            ConditionalCompileType::Required => r == Ok::<ActionInclusion, CompilationError>(ActionInclusion::Required),
            ConditionalCompileType::NoConstraint => r == Ok::<ActionInclusion, CompilationError>(ActionInclusion::Required),
            ConditionalCompileType::Nullable => r == Ok::<ActionInclusion, CompilationError>(ActionInclusion::Nullable),
            ConditionalCompileType::Skippable => r == Ok::<ActionInclusion, CompilationError>(ActionInclusion::Skip),
            ConditionalCompileType::Never => r == Ok::<ActionInclusion, CompilationError>(ActionInclusion::Skip),
        },
{
    match d {
        ConditionalCompileType::Fail(errors) => Err(CompilationError::ConditionalCompilationFailed(errors)),
        ConditionalCompileType::Required => Ok(ActionInclusion::Required),
        ConditionalCompileType::NoConstraint => Ok(ActionInclusion::Required),
        ConditionalCompileType::Nullable => Ok(ActionInclusion::Nullable),
        ConditionalCompileType::Skippable => Ok(ActionInclusion::Skip),
        ConditionalCompileType::Never => Ok(ActionInclusion::Skip),
    }
}

/// After an action's templates are compiled: a required covenant action
/// that produced no template is an error.
pub fn check_templates_produced(committed: bool, produced: bool, inclusion: ActionInclusion) -> (r:
    Result<(), CompilationError>)
    ensures
        (committed && !produced && inclusion == ActionInclusion::Required) ==> r == Err::<
            (),
            CompilationError,
        >(CompilationError::MissingTemplates),
        !(committed && !produced && inclusion == ActionInclusion::Required) ==> r is Ok,
{
    if committed && !produced && inclusion == ActionInclusion::Required {
        Err(CompilationError::MissingTemplates)
    } else {
        Ok(())
    }
}

/// The largest of a sequence of amounts and a floor.
pub open spec fn max_of(floor: u64, s: Seq<u64>) -> u64
    decreases s.len(),
{
    if s.len() == 0 {
        floor
    } else {
        let m = max_of(floor, s.drop_last());
        if m < s.last() {
            s.last()
        } else {
            m
        }
    }
}

/// A contract's input requirement: its declared floor raised to every
/// template's requirement.
pub fn required_input(floor: u64, templates: &[u64]) -> (r: u64)
    ensures
        r == max_of(floor, templates@),
        r >= floor,
        forall|i: int| 0 <= i < templates@.len() ==> r >= #[trigger] templates@[i],
        r == floor || exists|i: int| 0 <= i < templates@.len() && r == #[trigger] templates@[i],
{
    let mut r = floor;
    let mut i: usize = 0;
    while i < templates.len()
        invariant
            i <= templates@.len(),
            r == max_of(floor, templates@.take(i as int)),
            r >= floor,
            forall|j: int| 0 <= j < i ==> r >= #[trigger] templates@[j],
            r == floor || exists|j: int| 0 <= j < i && r == #[trigger] templates@[j],
        decreases templates@.len() - i,
    {
        assert(templates@.take(i + 1).drop_last() =~= templates@.take(i as int));
        if r < templates[i] {
            r = templates[i];
        }
        i += 1;
    }
    assert(templates@.take(i as int) =~= templates@);
    r
}

/// The spending clause a template adds to its action: a committed template
/// always adds one (its own covenant); a suggested template adds none, and
/// may carry no guards of its own.
pub open spec fn template_clause_spec(committed: bool, has_guards: bool) -> Result<bool, CompilationError> {
    if committed {
        Ok(true)
    } else if !has_guards {
        Ok(false)
    } else {
        Err(CompilationError::AdditionalGuardsNotAllowedHere)
    }
}

/// Whether a template produced by an action adds a spending clause, or the
/// error when a suggested template brings guards of its own.
pub fn template_clause(committed: bool, has_guards: bool) -> (r: Result<bool, CompilationError>)
    ensures
        r == template_clause_spec(committed, has_guards),
{
    if committed {
        Ok(true)
    } else if !has_guards {
        Ok(false)
    } else {
        Err(CompilationError::AdditionalGuardsNotAllowedHere)
    }
}

/// The view of a branch's bare key, if it has one.
pub open spec fn bare_key_view(b: Option<Vec<u8>>) -> Option<Seq<u8>> {
    match b {
        Some(k) => Some(k@),
        None => None,
    }
}

/// Whether a branch is exactly a spend by the given key.
pub open spec fn spends_by(b: Option<Vec<u8>>, key: Seq<u8>) -> bool {
    bare_key_view(b) == Some(key)
}

/// The key-path decision over a contract's compiled branches, each given by
/// its bare key (`None` for a branch that is not a lone key). A pinned key
/// must be one of the bare keys, and the branches that are exactly it leave
/// the script tree; without a pinned key every branch stays, and there must
/// be at least one.
pub open spec fn key_path_spec(pinned: Option<Vec<u8>>, bare_keys: Seq<Option<Vec<u8>>>) -> Result<
    Seq<bool>,
    CompilationError,
> {
    match pinned {
        Some(key) => if exists|i: int| 0 <= i < bare_keys.len() && #[trigger] spends_by(bare_keys[i], key@) {
            Ok(bare_keys.map_values(|b: Option<Vec<u8>>| !spends_by(b, key@)))
        } else {
            Err(CompilationError::UnauthorizedInternalKey { key })
        },
        None => if bare_keys.len() == 0 {
            Err(CompilationError::EmptyPolicy)
        } else {
            Ok(bare_keys.map_values(|b: Option<Vec<u8>>| true))
        },
    }
}

/// Which compiled branches keep a script leaf once the key path is settled:
/// the result holds, for each branch, whether it stays in the tree.
pub fn key_path_branches(pinned: &Option<Vec<u8>>, bare_keys: &Vec<Option<Vec<u8>>>) -> (r: Result<
    Vec<bool>,
    CompilationError,
>)
    ensures
        match (r, key_path_spec(*pinned, bare_keys@)) {
            (Ok(kept), Ok(k)) => kept@ == k,
            (Err(CompilationError::UnauthorizedInternalKey { key: a }), Err(
                CompilationError::UnauthorizedInternalKey { key: b },
            )) => a@ == b@,
            (Err(CompilationError::EmptyPolicy), Err(CompilationError::EmptyPolicy)) => true,
            _ => false,
        },
{
    match pinned {
        Some(key) => {
            let mut kept: Vec<bool> = Vec::new();
            let mut found = false;
            let mut i: usize = 0;
            while i < bare_keys.len()
                invariant
                    i <= bare_keys@.len(),
                    kept@.len() == i,
                    forall|j: int| 0 <= j < i ==> kept@[j] == !#[trigger] spends_by(bare_keys@[j], key@),
                    found <==> exists|j: int| 0 <= j < i && #[trigger] spends_by(bare_keys@[j], key@),
                decreases bare_keys@.len() - i,
            {
                let same = match &bare_keys[i] {
                    Some(k) => crate::feasibility::same_bytes(k, key),
                    None => false,
                };
                assert(same == spends_by(bare_keys@[i as int], key@));
                if same {
                    found = true;
                }
                kept.push(!same);
                i += 1;
            }
            if found {
                proof {
                    assert(kept@ =~= bare_keys@.map_values(|b: Option<Vec<u8>>| !spends_by(b, key@)));
                }
                Ok(kept)
            } else {
                Err(CompilationError::UnauthorizedInternalKey { key: key.clone() })
            }
        },
        None => {
            if bare_keys.len() == 0 {
                return Err(CompilationError::EmptyPolicy);
            }
            let mut kept: Vec<bool> = Vec::new();
            let mut i: usize = 0;
            while i < bare_keys.len()
                invariant
                    i <= bare_keys@.len(),
                    kept@.len() == i,
                    forall|j: int| 0 <= j < i ==> kept@[j],
                decreases bare_keys@.len() - i,
            {
                kept.push(true);
                i += 1;
            }
            proof {
                assert(kept@ =~= bare_keys@.map_values(|b: Option<Vec<u8>>| true));
            }
            Ok(kept)
        },
    }
}

} // verus!
