//! Materializing a policy's spending alternatives: every way to satisfy it,
//! each a conjunction of operands.
use vstd::prelude::*;
use crate::feasibility::{lemma_alternative_decreases, lemma_threshold_decreases};
use crate::policy::{Clause, EmulatedProgram, ScriptPolicy};
use crate::error::{CompilationError, PolicyResource};
use crate::preflight::{
    Counts, choice_fold, clause_spec, conj_fold, disj_fold, policy_spec, split_fold, contains_kind, lemma_policy_child_decreases, payload_step, visit_step,
};
use crate::script::{MAX_SCRIPT_BYTES, Preflight};

verus! {

/// One operand of a spending alternative.
#[derive(Debug, Clone, Copy)]
pub enum Operand<'a> {
    /// A native policy, compiled together with adjacent native operands.
    Miniscript(&'a Clause),
    /// An emulated program.
    Program(&'a EmulatedProgram),
    /// A raw script fragment.
    Script(&'a Vec<u8>),
}

/// Alternatives as sequences of operands.
pub open spec fn alts_view<'a>(r: Seq<Vec<Operand<'a>>>) -> Seq<Seq<Operand<'a>>> {
    r.map_values(|v: Vec<Operand<'a>>| v@)
}

/// The alternatives of a native policy: choices and one-of thresholds
/// split, everything else one operand.
pub open spec fn expand_clause_spec<'a>(c: &'a Clause) -> Seq<Seq<Operand<'a>>>
    decreases *c, 0int,
{
    match c {
        Clause::Or(v) => concat_choices(v@, v@.len() as int),
        Clause::Threshold(k, v) => if *k == 1 {
            concat_children(v@, v@.len() as int)
        } else {
            seq![seq![Operand::Miniscript(c)]]
        },
        _ => seq![seq![Operand::Miniscript(c)]],
    }
}

/// The alternatives of the first `k` choices, in order.
pub open spec fn concat_choices<'a>(s: Seq<(usize, Clause)>, k: int) -> Seq<Seq<Operand<'a>>>
    decreases s, k,
{
    if k <= 0 || k > s.len() {
        Seq::empty()
    } else {
        concat_choices(s, k - 1) + expand_clause_spec(&s[k - 1].1)
    }
}

/// The alternatives of the first `k` children of a one-of threshold, in order.
pub open spec fn concat_children<'a>(s: Seq<Clause>, k: int) -> Seq<Seq<Operand<'a>>>
    decreases s, k,
{
    if k <= 0 || k > s.len() {
        Seq::empty()
    } else {
        concat_children(s, k - 1) + expand_clause_spec(&s[k - 1])
    }
}

/// Every alternative of `a` joined with every alternative of `b`, those of
/// `a` outermost.
pub open spec fn cross<T>(a: Seq<Seq<T>>, b: Seq<Seq<T>>) -> Seq<Seq<T>>
    decreases a.len(),
{
    if a.len() == 0 {
        Seq::empty()
    } else {
        cross(a.drop_last(), b) + b.map_values(|r: Seq<T>| a.last() + r)
    }
}

/// The alternatives of a source policy. With `retain`, a native policy
/// inside a conjunction stays one operand, its choices kept in one leaf.
pub open spec fn expand_inner_spec<'a>(p: &'a ScriptPolicy, retain: bool, conjoined: bool) -> Seq<
    Seq<Operand<'a>>,
>
    decreases *p, 0int,
{
    match p {
        ScriptPolicy::Miniscript(c) => if retain && conjoined {
            seq![seq![Operand::Miniscript(c)]]
        } else {
            expand_clause_spec(c)
        },
        ScriptPolicy::Program(pr) => seq![seq![Operand::Program(pr)]],
        ScriptPolicy::Emulatable(_) => Seq::empty(),
        ScriptPolicy::Script(f) => seq![seq![Operand::Script(f)]],
        ScriptPolicy::Or(v) => disjoin(v@, retain, conjoined, v@.len() as int),
        ScriptPolicy::And(v) => conjoin(v@, retain, v@.len() as int),
    }
}

/// The alternatives of the first `k` choices, in order.
pub open spec fn disjoin<'a>(s: Seq<ScriptPolicy>, retain: bool, conjoined: bool, k: int) -> Seq<
    Seq<Operand<'a>>,
>
    decreases s, k,
{
    if k <= 0 || k > s.len() {
        Seq::empty()
    } else {
        disjoin(s, retain, conjoined, k - 1) + expand_inner_spec(&s[k - 1], retain, conjoined)
    }
}

/// The alternatives of the conjunction of the first `k` policies, starting
/// from the one empty alternative.
pub open spec fn conjoin<'a>(s: Seq<ScriptPolicy>, retain: bool, k: int) -> Seq<Seq<Operand<'a>>>
    decreases s, k,
{
    if k <= 0 || k > s.len() {
        seq![Seq::empty()]
    } else {
        cross(conjoin(s, retain, k - 1), expand_inner_spec(&s[k - 1], retain, true))
    }
}

proof fn lemma_alts_view_add<'a>(a: Seq<Vec<Operand<'a>>>, b: Seq<Vec<Operand<'a>>>)
    ensures
        alts_view(a + b) == alts_view(a) + alts_view(b),
{
    assert(alts_view(a + b) =~= alts_view(a) + alts_view(b));
}

/// The operands of `left` followed by those of `right`.
fn joined<'a>(left: &Vec<Operand<'a>>, right: &Vec<Operand<'a>>) -> (r: Vec<Operand<'a>>)
    ensures
        r@ == left@ + right@,
{
    let mut out: Vec<Operand<'a>> = Vec::new();
    let mut i: usize = 0;
    while i < left.len()
        invariant
            i <= left@.len(),
            out@ == left@.take(i as int),
        decreases left@.len() - i,
    {
        out.push(left[i]);
        assert(left@.take(i + 1) =~= left@.take(i as int).push(left@[i as int]));
        i += 1;
    }
    let mut j: usize = 0;
    while j < right.len()
        invariant
            i == left@.len(),
            j <= right@.len(),
            out@ == left@ + right@.take(j as int),
        decreases right@.len() - j,
    {
        out.push(right[j]);
        assert(left@ + right@.take(j + 1) =~= (left@ + right@.take(j as int)).push(right@[j as int]));
        j += 1;
    }
    assert(left@.take(left@.len() as int) =~= left@);
    assert(right@.take(right@.len() as int) =~= right@);
    out
}

/// Every alternative of `left` joined with every alternative of `right`.
fn cross_product<'a>(left: &Vec<Vec<Operand<'a>>>, right: &Vec<Vec<Operand<'a>>>) -> (r: Vec<
    Vec<Operand<'a>>,
>)
    ensures
        alts_view(r@) == cross(alts_view(left@), alts_view(right@)),
{
    let ghost lv = alts_view(left@);
    let ghost rv = alts_view(right@);
    let mut out: Vec<Vec<Operand<'a>>> = Vec::new();
    let mut i: usize = 0;
    while i < left.len()
        invariant
            i <= left@.len(),
            lv == alts_view(left@),
            rv == alts_view(right@),
            alts_view(out@) == cross(lv.take(i as int), rv),
        decreases left@.len() - i,
    {
        let ghost start = alts_view(out@);
        let mut j: usize = 0;
        while j < right.len()
            invariant
                i < left@.len(),
                j <= right@.len(),
                lv == alts_view(left@),
                rv == alts_view(right@),
                alts_view(out@) == start + rv.take(j as int).map_values(
                    |r: Seq<Operand<'a>>| lv[i as int] + r,
                ),
            decreases right@.len() - j,
        {
            let next = joined(&left[i], &right[j]);
            let ghost before = out@;
            out.push(next);
            proof {
                assert(out@ =~= before + seq![next]);
                lemma_alts_view_add(before, seq![next]);
                assert(alts_view(seq![next]) =~= seq![lv[i as int] + rv[j as int]]);
                assert(rv.take(j + 1).map_values(|r: Seq<Operand<'a>>| lv[i as int] + r) =~= rv.take(
                    j as int,
                ).map_values(|r: Seq<Operand<'a>>| lv[i as int] + r) + seq![lv[i as int] + rv[j as int]]);
            }
            j += 1;
        }
        proof {
            assert(rv.take(j as int) =~= rv);
            let t = lv.take(i + 1);
            assert(t.drop_last() =~= lv.take(i as int));
            assert(t.last() == lv[i as int]);
        }
        i += 1;
    }
    assert(lv.take(i as int) =~= lv);
    out
}

/// The alternatives of a native policy: its choices, and the children of a
/// one-of threshold, split recursively; anything else is one operand.
pub fn expand_clause<'a>(clause: &'a Clause) -> (r: Vec<Vec<Operand<'a>>>)
    ensures
        alts_view(r@) == expand_clause_spec(clause),
    decreases clause,
{
    match clause {
        Clause::Or(v) => {
            let mut out: Vec<Vec<Operand<'a>>> = Vec::new();
            let mut i: usize = 0;
            while i < v.len()
                invariant
                    i <= v@.len(),
                    *clause == Clause::Or(*v),
                    alts_view(out@) == concat_choices::<'a>(v@, i as int),
                decreases v@.len() - i,
            {
                proof {
                    lemma_alternative_decreases(*clause, i as int);
                }
                let mut more = expand_clause(&v[i].1);
                proof {
                    lemma_alts_view_add(out@, more@);
                }
                out.append(&mut more);
                i += 1;
            }
            out
        },
        Clause::Threshold(k, v) => {
            if *k == 1 {
                let mut out: Vec<Vec<Operand<'a>>> = Vec::new();
                let mut i: usize = 0;
                while i < v.len()
                    invariant
                        i <= v@.len(),
                        *clause == Clause::Threshold(*k, *v),
                        alts_view(out@) == concat_children::<'a>(v@, i as int),
                    decreases v@.len() - i,
                {
                    proof {
                        lemma_threshold_decreases(*clause, i as int);
                    }
                    let mut more = expand_clause(&v[i]);
                    proof {
                        lemma_alts_view_add(out@, more@);
                    }
                    out.append(&mut more);
                    i += 1;
                }
                out
            } else {
                let mut leaf: Vec<Operand<'a>> = Vec::new();
                leaf.push(Operand::Miniscript(clause));
                let mut out: Vec<Vec<Operand<'a>>> = Vec::new();
                out.push(leaf);
                assert(alts_view(out@) =~= seq![seq![Operand::Miniscript(clause)]]);
                out
            }
        },
        _ => {
            let mut leaf: Vec<Operand<'a>> = Vec::new();
            leaf.push(Operand::Miniscript(clause));
            let mut out: Vec<Vec<Operand<'a>>> = Vec::new();
            out.push(leaf);
            assert(alts_view(out@) =~= seq![seq![Operand::Miniscript(clause)]]);
            out
        },
    }
}

proof fn lemma_conjoin_empty_stays(s: Seq<ScriptPolicy>, retain: bool, k: int, m: int)
    requires
        0 <= k <= m <= s.len(),
        conjoin(s, retain, k).len() == 0,
    ensures
        conjoin(s, retain, m).len() == 0,
    decreases m - k,
{
    if m > k {
        lemma_conjoin_empty_stays(s, retain, k, m - 1);
    }
}

/// The alternatives of a source policy that holds no covenant predicate;
/// with `retain`, a native policy inside a conjunction stays one operand.
pub fn expand_inner<'a>(policy: &'a ScriptPolicy, retain_native_choices: bool, conjoined: bool) -> (r:
    Vec<Vec<Operand<'a>>>)
    requires
        !contains_kind(*policy, 2),
    ensures
        alts_view(r@) == expand_inner_spec(policy, retain_native_choices, conjoined),
    decreases policy,
{
    match policy {
        ScriptPolicy::Miniscript(clause) => {
            if retain_native_choices && conjoined {
                let mut leaf: Vec<Operand<'a>> = Vec::new();
                leaf.push(Operand::Miniscript(clause));
                let mut out: Vec<Vec<Operand<'a>>> = Vec::new();
                out.push(leaf);
                assert(alts_view(out@) =~= seq![seq![Operand::Miniscript(clause)]]);
                out
            } else {
                expand_clause(clause)
            }
        },
        ScriptPolicy::Program(program) => {
            let mut leaf: Vec<Operand<'a>> = Vec::new();
            leaf.push(Operand::Program(program));
            let mut out: Vec<Vec<Operand<'a>>> = Vec::new();
            out.push(leaf);
            assert(alts_view(out@) =~= seq![seq![Operand::Program(program)]]);
            out
        },
        ScriptPolicy::Script(fragment) => {
            let mut leaf: Vec<Operand<'a>> = Vec::new();
            leaf.push(Operand::Script(fragment));
            let mut out: Vec<Vec<Operand<'a>>> = Vec::new();
            out.push(leaf);
            assert(alts_view(out@) =~= seq![seq![Operand::Script(fragment)]]);
            out
        },
        ScriptPolicy::Emulatable(_) => {
            assert(false);
            Vec::new()
        },
        ScriptPolicy::Or(children) => {
            let mut out: Vec<Vec<Operand<'a>>> = Vec::new();
            let mut i: usize = 0;
            while i < children.len()
                invariant
                    i <= children@.len(),
                    *policy == ScriptPolicy::Or(*children),
                    !contains_kind(*policy, 2),
                    alts_view(out@) == disjoin::<'a>(
                        children@,
                        retain_native_choices,
                        conjoined,
                        i as int,
                    ),
                decreases children@.len() - i,
            {
                proof {
                    lemma_policy_child_decreases(*policy, i as int);
                    if contains_kind(children@[i as int], 2) {
                        assert(contains_kind(*policy, 2));
                    }
                }
                let mut more = expand_inner(&children[i], retain_native_choices, conjoined);
                proof {
                    lemma_alts_view_add(out@, more@);
                }
                out.append(&mut more);
                i += 1;
            }
            out
        },
        ScriptPolicy::And(children) => {
            let mut alternatives: Vec<Vec<Operand<'a>>> = Vec::new();
            alternatives.push(Vec::new());
            assert(alts_view(alternatives@) =~= seq![Seq::<Operand<'a>>::empty()]);
            let mut i: usize = 0;
            while i < children.len()
                invariant
                    i <= children@.len(),
                    *policy == ScriptPolicy::And(*children),
                    !contains_kind(*policy, 2),
                    alts_view(alternatives@) == conjoin::<'a>(
                        children@,
                        retain_native_choices,
                        i as int,
                    ),
                decreases children@.len() - i,
            {
                if alternatives.len() == 0 {
                    // Nothing can satisfy the conjunction; its other
                    // children cannot change that.
                    proof {
                        lemma_conjoin_empty_stays(
                            children@,
                            retain_native_choices,
                            i as int,
                            children@.len() as int,
                        );
                        assert(alts_view(alternatives@) =~= Seq::<Seq<Operand<'a>>>::empty());
                    }
                    return alternatives;
                }
                proof {
                    lemma_policy_child_decreases(*policy, i as int);
                    if contains_kind(children@[i as int], 2) {
                        assert(contains_kind(*policy, 2));
                    }
                }
                let next = expand_inner(&children[i], retain_native_choices, true);
                alternatives = cross_product(&alternatives, &next);
                i += 1;
            }
            alternatives
        },
    }
}

/// The spending alternatives of a source policy that holds no covenant
/// predicate, native choices split.
pub fn expand<'a>(policy: &'a ScriptPolicy) -> (r: Vec<Vec<Operand<'a>>>)
    requires
        !contains_kind(*policy, 2),
    ensures
        alts_view(r@) == expand_inner_spec(policy, false, false),
{
    expand_inner(policy, false, false)
}

/// Whether an alternative holds an emulated program.
pub open spec fn has_program<'a>(ops: Seq<Operand<'a>>) -> bool {
    exists|i: int| 0 <= i < ops.len() && ops[i] is Program
}

/// Count one operand, visited at `depth`: a native policy whole, with its
/// choices kept in one leaf; a program or fragment by its payload.
pub open spec fn operand_step<'a>(st: Counts, op: Operand<'a>, depth: int) -> Result<
    Counts,
    CompilationError,
> {
    match visit_step(st, depth) {
        Err(e) => Err(e),
        Ok(s1) => match op {
            Operand::Miniscript(c) => match clause_spec(s1, *c, depth + 1, false) {
                Err(e) => Err(e),
                Ok((s2, _)) => Ok(s2),
            },
            Operand::Program(p) => payload_step(
                s1,
                p.program@.len() as int + p.parameters@.len() as int,
            ),
            Operand::Script(f) => payload_step(s1, f@.len() as int),
        },
    }
}

/// Count the first `k` operands of an alternative at `depth`.
pub open spec fn charge_operands<'a>(st: Counts, ops: Seq<Operand<'a>>, depth: int, k: int) -> Result<
    Counts,
    CompilationError,
>
    decreases k,
{
    if k <= 0 || k > ops.len() {
        Ok(st)
    } else {
        match charge_operands(st, ops, depth, k - 1) {
            Err(e) => Err(e),
            Ok(s1) => operand_step(s1, ops[k - 1], depth),
        }
    }
}

/// Count one alternative when it holds a program: a conjunction node for
/// more than one operand, then each operand beneath it.
pub open spec fn charge_alternative<'a>(st: Counts, ops: Seq<Operand<'a>>) -> Result<
    Counts,
    CompilationError,
> {
    if !has_program(ops) {
        Ok(st)
    } else if ops.len() > 1 {
        match visit_step(st, 0) {
            Err(e) => Err(e),
            Ok(s1) => charge_operands(s1, ops, 1, ops.len() as int),
        }
    } else {
        charge_operands(st, ops, 0, ops.len() as int)
    }
}

/// Count the first `k` alternatives, in order.
pub open spec fn charge_all<'a>(st: Counts, alts: Seq<Seq<Operand<'a>>>, k: int) -> Result<
    Counts,
    CompilationError,
>
    decreases k,
{
    if k <= 0 || k > alts.len() {
        Ok(st)
    } else {
        match charge_all(st, alts, k - 1) {
            Err(e) => Err(e),
            Ok(s1) => charge_alternative(s1, alts[k - 1]),
        }
    }
}

proof fn lemma_charge_operands_err_stays<'a>(
    st: Counts,
    ops: Seq<Operand<'a>>,
    depth: int,
    k: int,
    m: int,
)
    requires
        0 <= k <= m <= ops.len(),
        charge_operands(st, ops, depth, k) is Err,
    ensures
        charge_operands(st, ops, depth, m) == charge_operands(st, ops, depth, k),
    decreases m - k,
{
    if m > k {
        lemma_charge_operands_err_stays(st, ops, depth, k, m - 1);
    }
}

proof fn lemma_charge_all_err_stays<'a>(st: Counts, alts: Seq<Seq<Operand<'a>>>, k: int, m: int)
    requires
        0 <= k <= m <= alts.len(),
        charge_all(st, alts, k) is Err,
    ensures
        charge_all(st, alts, m) == charge_all(st, alts, k),
    decreases m - k,
{
    if m > k {
        lemma_charge_all_err_stays(st, alts, k, m - 1);
    }
}

proof fn lemma_operand_err_ends<'a>(
    st0: Counts,
    alts: Seq<Seq<Operand<'a>>>,
    i: int,
    s_in: Counts,
    s_start: Counts,
    depth: int,
    k: int,
)
    requires
        0 <= i < alts.len(),
        0 <= k < alts[i].len(),
        has_program(alts[i]),
        charge_all(st0, alts, i) == Ok::<Counts, CompilationError>(s_in),
        depth == (if alts[i].len() > 1 { 1int } else { 0int }),
        depth == 1 ==> visit_step(s_in, 0) == Ok::<Counts, CompilationError>(s_start),
        depth == 0 ==> s_start == s_in,
        charge_operands(s_start, alts[i], depth, k) is Ok,
        charge_operands(s_start, alts[i], depth, k + 1) is Err,
    ensures
        charge_all(st0, alts, alts.len() as int) == charge_operands(s_start, alts[i], depth, k + 1),
{
    let ops = alts[i];
    lemma_charge_operands_err_stays(s_start, ops, depth, k + 1, ops.len() as int);
    assert(charge_alternative(s_in, ops) == charge_operands(s_start, ops, depth, k + 1));
    assert(charge_all(st0, alts, i + 1) == charge_alternative(s_in, ops));
    lemma_charge_all_err_stays(st0, alts, i + 1, alts.len() as int);
}

/// The work counted for the program-bearing alternatives that a contract
/// records whole, shared by every action contributing to the contract.
#[derive(Debug)]
pub struct RecordedPolicyBudget(pub Preflight);

impl Default for RecordedPolicyBudget {
    fn default() -> (r: Self)
        ensures
            r.0 == (Preflight { lowering: None, nodes: 0, payload_bytes: 0 }),
    {
        RecordedPolicyBudget(Preflight::new(None))
    }
}

impl RecordedPolicyBudget {
    fn charge_operand(&mut self, operand: Operand<'_>, depth: usize) -> (r: Result<(), CompilationError>)
        requires
            depth <= 1,
        ensures
            final(self).0.lowering == old(self).0.lowering,
            match operand_step((old(self).0.nodes, old(self).0.payload_bytes), operand, depth as int) {
                Err(e) => r == Err::<(), CompilationError>(e),
                Ok(st) => r is Ok && final(self).0.nodes == st.0 && final(self).0.payload_bytes
                    == st.1,
            },
    {
        match self.0.visit(depth) {
            Ok(_) => {},
            Err(e) => return Err(e),
        }
        match operand {
            Operand::Miniscript(clause) => {
                // The whole native subtree is recorded, even where its
                // choices stay inside one leaf.
                match self.0.clause(clause, depth + 1, false) {
                    Ok(_) => Ok(()),
                    Err(e) => Err(e),
                }
            },
            Operand::Program(program) => {
                match program.program.len().checked_add(program.parameters.len()) {
                    Some(bytes) => self.0.payload(bytes),
                    None => Err(
                        CompilationError::PolicyLimit {
                            resource: PolicyResource::SourceScriptBytes,
                            limit: MAX_SCRIPT_BYTES,
                        },
                    ),
                }
            },
            Operand::Script(fragment) => self.0.payload(fragment.len()),
        }
    }

    /// Count the program-bearing alternatives among these, in order: each
    /// node and payload byte, within the work limits.
    pub fn charge(&mut self, alternatives: &[Vec<Operand<'_>>]) -> (r: Result<(), CompilationError>)
        ensures
            final(self).0.lowering == old(self).0.lowering,
            match charge_all(
                (old(self).0.nodes, old(self).0.payload_bytes),
                alts_view(alternatives@),
                alternatives@.len() as int,
            ) {
                Err(e) => r == Err::<(), CompilationError>(e),
                Ok(st) => r is Ok && final(self).0.nodes == st.0 && final(self).0.payload_bytes
                    == st.1,
            },
    {
        let ghost st0: Counts = (self.0.nodes, self.0.payload_bytes);
        let ghost alts = alts_view(alternatives@);
        let mut i: usize = 0;
        while i < alternatives.len()
            invariant
                i <= alternatives@.len(),
                alts == alts_view(alternatives@),
                st0 == (old(self).0.nodes, old(self).0.payload_bytes),
                self.0.lowering == old(self).0.lowering,
                charge_all(st0, alts, i as int) == Ok::<Counts, CompilationError>(
                    (self.0.nodes, self.0.payload_bytes),
                ),
            decreases alternatives@.len() - i,
        {
            let operands = &alternatives[i];
            let ghost ops = operands@;
            assert(alts[i as int] == ops);
            let mut found = false;
            let mut j: usize = 0;
            while j < operands.len()
                invariant
                    j <= ops.len(),
                    ops == operands@,
                    found <==> exists|k: int| 0 <= k < j && ops[k] is Program,
                decreases ops.len() - j,
            {
                if let Operand::Program(_) = operands[j] {
                    found = true;
                }
                j += 1;
            }
            if found {
                let ghost s_in: Counts = (self.0.nodes, self.0.payload_bytes);
                let depth: usize = if operands.len() > 1 {
                    1
                } else {
                    0
                };
                if depth != 0 {
                    match self.0.visit(0) {
                        Ok(_) => {},
                        Err(e) => {
                            proof {
                                lemma_charge_all_err_stays(
                                    st0,
                                    alts,
                                    i + 1,
                                    alternatives@.len() as int,
                                );
                            }
                            return Err(e);
                        },
                    }
                }
                assert(has_program(ops));
                let ghost s_start: Counts = (self.0.nodes, self.0.payload_bytes);
                let mut k: usize = 0;
                while k < operands.len()
                    invariant
                        k <= ops.len(),
                        ops == operands@,
                        i < alternatives@.len(),
                        alts == alts_view(alternatives@),
                        st0 == (old(self).0.nodes, old(self).0.payload_bytes),
                        alts[i as int] == ops,
                        has_program(ops),
                        charge_all(st0, alts, i as int) == Ok::<Counts, CompilationError>(s_in),
                        depth == 1 ==> visit_step(s_in, 0) == Ok::<Counts, CompilationError>(s_start),
                        depth == 0 ==> s_start == s_in,
                        depth <= 1,
                        depth == (if ops.len() > 1 { 1usize } else { 0usize }),
                        self.0.lowering == old(self).0.lowering,
                        charge_operands(s_start, ops, depth as int, k as int) == Ok::<
                            Counts,
                            CompilationError,
                        >((self.0.nodes, self.0.payload_bytes)),
                    decreases ops.len() - k,
                {
                    match self.charge_operand(operands[k], depth) {
                        Ok(_) => {},
                        Err(e) => {
                            proof {
                                lemma_operand_err_ends(st0, alts, i as int, s_in, s_start, depth as int, k as int);
                            }
                            return Err(e);
                        },
                    }
                    k += 1;
                }
                assert(charge_alternative(s_in, ops) == Ok::<Counts, CompilationError>(
                    (self.0.nodes, self.0.payload_bytes),
                ));
            }
            i += 1;
        }
        Ok(())
    }
}

/// Operands across all alternatives.
pub open spec fn operand_count<T>(alts: Seq<Seq<T>>) -> int
    decreases alts.len(),
{
    if alts.len() == 0 {
        0
    } else {
        operand_count(alts.drop_last()) + alts.last().len()
    }
}

proof fn lemma_operand_count_add<T>(a: Seq<Seq<T>>, b: Seq<Seq<T>>)
    ensures
        operand_count(a + b) == operand_count(a) + operand_count(b),
    decreases b.len(),
{
    if b.len() == 0 {
        assert(a + b =~= a);
    } else {
        assert((a + b).drop_last() =~= a + b.drop_last());
        assert((a + b).last() == b.last());
        lemma_operand_count_add(a, b.drop_last());
    }
}

proof fn lemma_prefixed_counts<T>(l: Seq<T>, b: Seq<Seq<T>>)
    ensures
        b.map_values(|r: Seq<T>| l + r).len() == b.len(),
        operand_count(b.map_values(|r: Seq<T>| l + r)) == l.len() * b.len() + operand_count(b),
    decreases b.len(),
{
    let m = b.map_values(|r: Seq<T>| l + r);
    if b.len() > 0 {
        let bd = b.drop_last();
        assert(m.drop_last() =~= bd.map_values(|r: Seq<T>| l + r));
        lemma_prefixed_counts(l, bd);
        assert(m.last() == l + b.last());
        let n = b.len() as int;
        let x = l.len() as int;
        assert(x * (n - 1) + x == x * n) by (nonlinear_arith);
        assert(m.len() == n);
        assert(operand_count(m) == operand_count(m.drop_last()) + m.last().len());
        assert(operand_count(b) == operand_count(bd) + b.last().len());
    } else {
        let x = l.len() as int;
        assert(x * 0 == 0) by (nonlinear_arith);
    }
}

/// Joining every alternative of `a` with every one of `b` gives
/// `|a| * |b|` alternatives, each operand of `a` repeated `|b|` times and
/// each of `b` repeated `|a|` times.
pub proof fn lemma_cross_counts<T>(a: Seq<Seq<T>>, b: Seq<Seq<T>>)
    ensures
        cross(a, b).len() == a.len() * b.len(),
        operand_count(cross(a, b)) == operand_count(a) * b.len() + operand_count(b) * a.len(),
    decreases a.len(),
{
    if a.len() > 0 {
        let ad = a.drop_last();
        let l = a.last();
        lemma_cross_counts(ad, b);
        lemma_prefixed_counts(l, b);
        lemma_operand_count_add(cross(ad, b), b.map_values(|r: Seq<T>| l + r));
        let n = a.len() as int;
        let m = b.len() as int;
        let oa = operand_count(ad);
        let ob = operand_count(b);
        let x = l.len() as int;
        assert((n - 1) * m + m == n * m) by (nonlinear_arith);
        assert(oa * m + ob * (n - 1) + (x * m + ob) == (oa + x) * m + ob * n) by (nonlinear_arith);
    }
}

proof fn lemma_single_counts<T>(x: T)
    ensures
        operand_count(seq![seq![x]]) == 1,
{
    let s = seq![seq![x]];
    assert(s.drop_last() =~= Seq::<Seq<T>>::empty());
    assert(operand_count(s.drop_last()) == 0);
}

proof fn lemma_clause_counts(st: Counts, c: Clause, depth: int)
    requires
        clause_spec(st, c, depth, true) is Ok,
    ensures
        clause_spec(st, c, depth, true)->Ok_0.1.alternatives == expand_clause_spec(&c).len(),
        clause_spec(st, c, depth, true)->Ok_0.1.operands == operand_count(expand_clause_spec(&c)),
    decreases c, 0int,
{
    let s1 = visit_step(st, depth)->Ok_0;
    match c {
        Clause::Or(v) => {
            lemma_choice_counts(s1, v@, depth + 1, v@.len() as int);
        },
        Clause::Threshold(k, v) => {
            if k == 1 {
                lemma_split_counts(s1, v@, depth + 1, v@.len() as int);
            } else {
                lemma_single_counts(Operand::Miniscript(&c));
            }
        },
        _ => {
            lemma_single_counts(Operand::Miniscript(&c));
        },
    }
}

proof fn lemma_choice_counts(st: Counts, s: Seq<(usize, Clause)>, depth: int, k: int)
    requires
        choice_fold(st, s, depth, true, k) is Ok,
    ensures
        choice_fold(st, s, depth, true, k)->Ok_0.1.alternatives == concat_choices(s, k).len(),
        choice_fold(st, s, depth, true, k)->Ok_0.1.operands == operand_count(concat_choices(s, k)),
    decreases s, k,
{
    if 0 < k <= s.len() {
        lemma_choice_counts(st, s, depth, k - 1);
        let s1 = choice_fold(st, s, depth, true, k - 1)->Ok_0.0;
        lemma_clause_counts(s1, s[k - 1].1, depth);
        lemma_operand_count_add(concat_choices(s, k - 1), expand_clause_spec(&s[k - 1].1));
    }
}

proof fn lemma_split_counts(st: Counts, s: Seq<Clause>, depth: int, k: int)
    requires
        split_fold(st, s, depth, k) is Ok,
    ensures
        split_fold(st, s, depth, k)->Ok_0.1.alternatives == concat_children(s, k).len(),
        split_fold(st, s, depth, k)->Ok_0.1.operands == operand_count(concat_children(s, k)),
    decreases s, k,
{
    if 0 < k <= s.len() {
        lemma_split_counts(st, s, depth, k - 1);
        let s1 = split_fold(st, s, depth, k - 1)->Ok_0.0;
        lemma_clause_counts(s1, s[k - 1], depth);
        lemma_operand_count_add(concat_children(s, k - 1), expand_clause_spec(&s[k - 1]));
    }
}

proof fn lemma_policy_counts(st: Counts, p: ScriptPolicy, depth: int, conjoined: bool)
    requires
        !contains_kind(p, 2),
        policy_spec(st, p, depth, None) is Ok,
    ensures
        policy_spec(st, p, depth, None)->Ok_0.1.alternatives == expand_inner_spec(
            &p,
            false,
            conjoined,
        ).len(),
        policy_spec(st, p, depth, None)->Ok_0.1.operands == operand_count(
            expand_inner_spec(&p, false, conjoined),
        ),
    decreases p, 0int,
{
    let s1 = visit_step(st, depth)->Ok_0;
    match p {
        ScriptPolicy::Program(pr) => {
            lemma_single_counts(Operand::Program(&pr));
        },
        ScriptPolicy::Script(f) => {
            lemma_single_counts(Operand::Script(&f));
        },
        ScriptPolicy::Emulatable(_) => {},
        ScriptPolicy::Miniscript(c) => {
            lemma_clause_counts(s1, c, depth + 1);
        },
        ScriptPolicy::And(v) => {
            assert forall|i: int| 0 <= i < v@.len() implies !contains_kind(#[trigger] v@[i], 2) by {
                if contains_kind(v@[i], 2) {
                    assert(contains_kind(p, 2));
                }
            }
            lemma_conj_counts(s1, v@, depth + 1, v@.len() as int);
        },
        ScriptPolicy::Or(v) => {
            assert forall|i: int| 0 <= i < v@.len() implies !contains_kind(#[trigger] v@[i], 2) by {
                if contains_kind(v@[i], 2) {
                    assert(contains_kind(p, 2));
                }
            }
            lemma_disj_counts(s1, v@, depth + 1, conjoined, v@.len() as int);
        },
    }
}

proof fn lemma_conj_counts(st: Counts, s: Seq<ScriptPolicy>, depth: int, k: int)
    requires
        forall|i: int| 0 <= i < s.len() ==> !contains_kind(#[trigger] s[i], 2),
        conj_fold(st, s, depth, None, k) is Ok,
    ensures
        conj_fold(st, s, depth, None, k)->Ok_0.1.alternatives == conjoin(s, false, k).len(),
        conj_fold(st, s, depth, None, k)->Ok_0.1.operands == operand_count(conjoin(s, false, k)),
    decreases s, k,
{
    if 0 < k <= s.len() {
        lemma_conj_counts(st, s, depth, k - 1);
        let s1 = conj_fold(st, s, depth, None, k - 1)->Ok_0.0;
        lemma_policy_counts(s1, s[k - 1], depth, true);
        lemma_cross_counts(conjoin(s, false, k - 1), expand_inner_spec(&s[k - 1], false, true));
    } else {
        let e: Seq<Seq<Operand>> = seq![Seq::empty()];
        assert(e.drop_last() =~= Seq::<Seq<Operand>>::empty());
        assert(operand_count(e.drop_last()) == 0);
        assert(e.last().len() == 0);
        assert(operand_count(e) == 0);
    }
}

proof fn lemma_disj_counts(st: Counts, s: Seq<ScriptPolicy>, depth: int, conjoined: bool, k: int)
    requires
        forall|i: int| 0 <= i < s.len() ==> !contains_kind(#[trigger] s[i], 2),
        disj_fold(st, s, depth, None, k) is Ok,
    ensures
        disj_fold(st, s, depth, None, k)->Ok_0.1.alternatives == disjoin(s, false, conjoined, k).len(),
        disj_fold(st, s, depth, None, k)->Ok_0.1.operands == operand_count(
            disjoin(s, false, conjoined, k),
        ),
    decreases s, k,
{
    if 0 < k <= s.len() {
        lemma_disj_counts(st, s, depth, conjoined, k - 1);
        let s1 = disj_fold(st, s, depth, None, k - 1)->Ok_0.0;
        lemma_policy_counts(s1, s[k - 1], depth, conjoined);
        lemma_operand_count_add(
            disjoin(s, false, conjoined, k - 1),
            expand_inner_spec(&s[k - 1], false, conjoined),
        );
    }
}

/// Preflight counts exactly what expansion materializes: a source policy
/// without covenant predicates that passes its checks expands into as many
/// spending alternatives, with as many operands across them, as preflight
/// reported.
pub proof fn lemma_preflight_counts_expansion(st: Counts, p: ScriptPolicy, depth: int)
    requires
        !contains_kind(p, 2),
        policy_spec(st, p, depth, None) is Ok,
    ensures
        policy_spec(st, p, depth, None)->Ok_0.1.alternatives == expand_inner_spec(
            &p,
            false,
            false,
        ).len(),
        policy_spec(st, p, depth, None)->Ok_0.1.operands == operand_count(
            expand_inner_spec(&p, false, false),
        ),
{
    lemma_policy_counts(st, p, depth, false);
}

} // verus!
