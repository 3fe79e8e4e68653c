//! Bounding the work of lowering a policy before any of it is done: nodes,
//! depth, source payload and the size of the expansion into alternatives.
use vstd::prelude::*;
use crate::error::{CompilationError, PolicyFault, PolicyResource};
use crate::policy::{Clause, EmulatedProgram, Inscription, LoweringPlan, ScriptPolicy};
use crate::feasibility::{lemma_alternative_decreases, lemma_child_decreases, lemma_threshold_decreases};
use crate::script::{
    Expansion, MAX_DEPTH, MAX_NODES, MAX_SCRIPT_BYTES, Preflight, and_spec, checked_spec,
    limit_error, or_spec,
};

verus! {

/// Work counted so far: nodes visited and source payload bytes.
pub type Counts = (usize, usize);

/// Count a node at `depth`.
pub open spec fn visit_step(st: Counts, depth: int) -> Result<Counts, CompilationError> {
    if depth > MAX_DEPTH {
        Err(limit_error(PolicyResource::PolicyDepth, MAX_DEPTH))
    } else if st.0 >= MAX_NODES {
        Err(limit_error(PolicyResource::PolicyNodes, MAX_NODES))
    } else {
        Ok(((st.0 + 1) as usize, st.1))
    }
}

/// Count `bytes` of source payload.
pub open spec fn payload_step(st: Counts, bytes: int) -> Result<Counts, CompilationError> {
    if st.1 + bytes > MAX_SCRIPT_BYTES {
        Err(limit_error(PolicyResource::SourceScriptBytes, MAX_SCRIPT_BYTES))
    } else {
        Ok((st.0, (st.1 + bytes) as usize))
    }
}

/// One alternative with one operand and this payload.
pub open spec fn single(payload_bytes: usize) -> Expansion {
    Expansion { alternatives: 1, operands: 1, payload_bytes }
}

/// The error for an expanded payload that does not fit.
pub open spec fn expanded_bytes_error() -> CompilationError {
    limit_error(PolicyResource::ExpandedScriptBytes, MAX_SCRIPT_BYTES)
}

/// Sum of the lengths of the present envelope fields, if it fits.
pub open spec fn inscription_bytes(i: Inscription) -> Option<usize> {
    let total = field_len(i.body) + field_len(i.content_encoding) + field_len(i.content_type)
        + field_len(i.delegate) + field_len(i.metadata) + field_len(i.metaprotocol) + field_len(
        i.parent,
    ) + field_len(i.pointer);
    if total <= usize::MAX {
        Some(total as usize)
    } else {
        None
    }
}

/// Length of an optional field.
pub open spec fn field_len(f: Option<Vec<u8>>) -> int {
    match f {
        Some(b) => b@.len() as int,
        None => 0,
    }
}

/// Preflight of a native policy at `depth`; `split` expands top-level
/// choices into separate alternatives.
pub open spec fn clause_spec(st: Counts, c: Clause, depth: int, split: bool) -> Result<
    (Counts, Expansion),
    CompilationError,
>
    decreases c, 0int,
{
    match visit_step(st, depth) {
        Err(e) => Err(e),
        Ok(s1) => match c {
            Clause::Or(v) => match choice_fold(s1, v@, depth + 1, split, v@.len() as int) {
                Err(e) => Err(e),
                Ok((s2, acc, pay)) => if split {
                    Ok((s2, acc))
                } else {
                    Ok((s2, single(pay)))
                },
            },
            Clause::Threshold(k, v) => if split && k == 1 {
                split_fold(s1, v@, depth + 1, v@.len() as int)
            } else {
                match sum_fold(s1, v@, depth + 1, v@.len() as int) {
                    Err(e) => Err(e),
                    Ok((s2, pay)) => Ok((s2, single(pay))),
                }
            },
            Clause::And(v) => match sum_fold(s1, v@, depth + 1, v@.len() as int) {
                Err(e) => Err(e),
                Ok((s2, pay)) => Ok((s2, single(pay))),
            },
            Clause::Inscribe(ins, child) => match inscription_bytes(*ins) {
                None => Err(limit_error(PolicyResource::SourceScriptBytes, MAX_SCRIPT_BYTES)),
                Some(b) => match payload_step(s1, b as int) {
                    Err(e) => Err(e),
                    Ok(s2) => match clause_spec(s2, *child, depth + 1, false) {
                        Err(e) => Err(e),
                        Ok((s3, e)) => if b + e.payload_bytes > usize::MAX {
                            Err(expanded_bytes_error())
                        } else {
                            Ok((s3, single((b + e.payload_bytes) as usize)))
                        },
                    },
                },
            },
            _ => Ok((s1, single(0))),
        },
    }
}

/// The first `k` alternatives of a choice, in order: their combined
/// expansion when splitting, otherwise the sum of their payloads.
pub open spec fn choice_fold(
    st: Counts,
    s: Seq<(usize, Clause)>,
    depth: int,
    split: bool,
    k: int,
) -> Result<(Counts, Expansion, usize), CompilationError>
    decreases s, k,
{
    if k <= 0 || k > s.len() {
        Ok((st, Expansion { alternatives: 0, operands: 0, payload_bytes: 0 }, 0))
    } else {
        match choice_fold(st, s, depth, split, k - 1) {
            Err(e) => Err(e),
            Ok((s1, acc, pay)) => match clause_spec(s1, s[k - 1].1, depth, split) {
                Err(e) => Err(e),
                Ok((s2, child)) => if split {
                    match or_spec(acc, child) {
                        Err(e) => Err(e),
                        Ok(a2) => Ok((s2, a2, pay)),
                    }
                } else if pay + child.payload_bytes > usize::MAX {
                    Err(expanded_bytes_error())
                } else {
                    Ok((s2, acc, (pay + child.payload_bytes) as usize))
                },
            },
        }
    }
}

/// The first `k` children of a one-of threshold, split into alternatives.
pub open spec fn split_fold(st: Counts, s: Seq<Clause>, depth: int, k: int) -> Result<
    (Counts, Expansion),
    CompilationError,
>
    decreases s, k,
{
    if k <= 0 || k > s.len() {
        Ok((st, Expansion { alternatives: 0, operands: 0, payload_bytes: 0 }))
    } else {
        match split_fold(st, s, depth, k - 1) {
            Err(e) => Err(e),
            Ok((s1, acc)) => match clause_spec(s1, s[k - 1], depth, true) {
                Err(e) => Err(e),
                Ok((s2, child)) => match or_spec(acc, child) {
                    Err(e) => Err(e),
                    Ok(a2) => Ok((s2, a2)),
                },
            },
        }
    }
}

/// The summed payload of the first `k` children, kept in one leaf.
pub open spec fn sum_fold(st: Counts, s: Seq<Clause>, depth: int, k: int) -> Result<
    (Counts, usize),
    CompilationError,
>
    decreases s, k,
{
    if k <= 0 || k > s.len() {
        Ok((st, 0))
    } else {
        match sum_fold(st, s, depth, k - 1) {
            Err(e) => Err(e),
            Ok((s1, pay)) => match clause_spec(s1, s[k - 1], depth, false) {
                Err(e) => Err(e),
                Ok((s2, child)) => if pay + child.payload_bytes > usize::MAX {
                    Err(expanded_bytes_error())
                } else {
                    Ok((s2, (pay + child.payload_bytes) as usize))
                },
            },
        }
    }
}


proof fn lemma_choice_err_stays(
    st: Counts,
    s: Seq<(usize, Clause)>,
    depth: int,
    split: bool,
    k: int,
    m: int,
)
    requires
        0 <= k <= m <= s.len(),
        choice_fold(st, s, depth, split, k) is Err,
    ensures
        choice_fold(st, s, depth, split, m) == choice_fold(st, s, depth, split, k),
    decreases m - k,
{
    if m > k {
        lemma_choice_err_stays(st, s, depth, split, k, m - 1);
    }
}

proof fn lemma_split_err_stays(st: Counts, s: Seq<Clause>, depth: int, k: int, m: int)
    requires
        0 <= k <= m <= s.len(),
        split_fold(st, s, depth, k) is Err,
    ensures
        split_fold(st, s, depth, m) == split_fold(st, s, depth, k),
    decreases m - k,
{
    if m > k {
        lemma_split_err_stays(st, s, depth, k, m - 1);
    }
}

proof fn lemma_sum_err_stays(st: Counts, s: Seq<Clause>, depth: int, k: int, m: int)
    requires
        0 <= k <= m <= s.len(),
        sum_fold(st, s, depth, k) is Err,
    ensures
        sum_fold(st, s, depth, m) == sum_fold(st, s, depth, k),
    decreases m - k,
{
    if m > k {
        lemma_sum_err_stays(st, s, depth, k, m - 1);
    }
}

/// Sum of the lengths of the present envelope fields.
fn inscription_payload_bytes(i: &Inscription) -> (r: Result<usize, CompilationError>)
    ensures
        match inscription_bytes(*i) {
            Some(b) => r == Ok::<usize, CompilationError>(b),
            None => r == Err::<usize, CompilationError>(
                limit_error(PolicyResource::SourceScriptBytes, MAX_SCRIPT_BYTES),
            ),
        },
{
    let fields = [
        &i.body,
        &i.content_encoding,
        &i.content_type,
        &i.delegate,
        &i.metadata,
        &i.metaprotocol,
        &i.parent,
        &i.pointer,
    ];
    let ghost lens = seq![
        field_len(i.body),
        field_len(i.content_encoding),
        field_len(i.content_type),
        field_len(i.delegate),
        field_len(i.metadata),
        field_len(i.metaprotocol),
        field_len(i.parent),
        field_len(i.pointer),
    ];
    assert(partial_sum(lens, 8) == field_len(i.body) + field_len(i.content_encoding) + field_len(
        i.content_type,
    ) + field_len(i.delegate) + field_len(i.metadata) + field_len(i.metaprotocol) + field_len(
        i.parent,
    ) + field_len(i.pointer)) by {
        reveal_with_fuel(partial_sum, 9);
    }
    let mut total: usize = 0;
    let mut k: usize = 0;
    while k < 8
        invariant
            k <= 8,
            lens.len() == 8,
            forall|j: int| 0 <= j < 8 ==> lens[j] >= 0,
            forall|j: int| 0 <= j < 8 ==> field_len(*#[trigger] fields@[j]) == lens[j],
            partial_sum(lens, 8) == field_len(i.body) + field_len(i.content_encoding) + field_len(
                i.content_type,
            ) + field_len(i.delegate) + field_len(i.metadata) + field_len(i.metaprotocol)
                + field_len(i.parent) + field_len(i.pointer),
            total == partial_sum(lens, k as int),
        decreases 8 - k,
    {
        let len = match fields[k] {
            Some(b) => b.len(),
            None => 0,
        };
        assert(len == lens[k as int]);
        total = match total.checked_add(len) {
            Some(t) => t,
            None => {
                proof {
                    lemma_partial_sum_grows(lens, k + 1, 8);
                }
                return Err(
                    crate::error::CompilationError::PolicyLimit {
                        resource: PolicyResource::SourceScriptBytes,
                        limit: MAX_SCRIPT_BYTES,
                    },
                );
            },
        };
        k += 1;
    }
    Ok(total)
}

/// Sum of the first `k` lengths.
spec fn partial_sum(lens: Seq<int>, k: int) -> int
    decreases k,
{
    if k <= 0 {
        0
    } else {
        partial_sum(lens, k - 1) + lens[k - 1]
    }
}

proof fn lemma_partial_sum_grows(lens: Seq<int>, k: int, m: int)
    requires
        0 <= k <= m <= lens.len(),
        forall|j: int| 0 <= j < lens.len() ==> lens[j] >= 0,
    ensures
        partial_sum(lens, k) <= partial_sum(lens, m),
    decreases m - k,
{
    if m > k {
        lemma_partial_sum_grows(lens, k, m - 1);
    }
}

impl Preflight {
    /// Bound a native policy at `depth` before it is validated or compiled;
    /// `split` expands top-level choices into separate alternatives.
    pub fn clause(&mut self, clause: &Clause, depth: usize, split: bool) -> (r: Result<
        Expansion,
        CompilationError,
    >)
        ensures
            final(self).lowering == old(self).lowering,
            match clause_spec((old(self).nodes, old(self).payload_bytes), *clause, depth as int, split) {
                Err(e) => r == Err::<Expansion, CompilationError>(e),
                Ok((st, ex)) => r == Ok::<Expansion, CompilationError>(ex) && final(self).nodes
                    == st.0 && final(self).payload_bytes == st.1,
            },
        decreases clause,
    {
        match self.visit(depth) {
            Ok(_) => {},
            Err(e) => return Err(e),
        }
        let ghost s1: Counts = (self.nodes, self.payload_bytes);
        match clause {
            Clause::Or(v) => {
                let mut acc = Expansion::empty();
                let mut pay: usize = 0;
                let mut i: usize = 0;
                while i < v.len()
                    invariant
                        i <= v@.len(),
                        depth <= MAX_DEPTH,
                        self.lowering == old(self).lowering,
                        visit_step((old(self).nodes, old(self).payload_bytes), depth as int) == Ok::<
                            Counts,
                            CompilationError,
                        >(s1),
                        *clause == Clause::Or(*v),
                        choice_fold(s1, v@, depth + 1, split, i as int) == Ok::<
                            (Counts, Expansion, usize),
                            CompilationError,
                        >(((self.nodes, self.payload_bytes), acc, pay)),
                    decreases v@.len() - i,
                {
                    proof {
                        lemma_alternative_decreases(*clause, i as int);
                    }
                    let child = match self.clause(&v[i].1, depth + 1, split) {
                        Ok(c) => c,
                        Err(e) => {
                            proof {
                                lemma_choice_err_stays(s1, v@, depth + 1, split, i + 1, v@.len() as int);
                            }
                            return Err(e);
                        },
                    };
                    if split {
                        acc = match acc.or(child) {
                            Ok(a) => a,
                            Err(e) => {
                                proof {
                                    lemma_choice_err_stays(s1, v@, depth + 1, split, i + 1, v@.len() as int);
                                }
                                return Err(e);
                            },
                        };
                    } else {
                        pay = match pay.checked_add(child.payload_bytes) {
                            Some(p) => p,
                            None => {
                                proof {
                                    lemma_choice_err_stays(s1, v@, depth + 1, split, i + 1, v@.len() as int);
                                }
                                return Err(
                                    CompilationError::PolicyLimit {
                                        resource: PolicyResource::ExpandedScriptBytes,
                                        limit: MAX_SCRIPT_BYTES,
                                    },
                                );
                            },
                        };
                    }
                    i += 1;
                }
                if split {
                    Ok(acc)
                } else {
                    Ok(Expansion { alternatives: 1, operands: 1, payload_bytes: pay })
                }
            },
            Clause::Threshold(k, v) => {
                if split && *k == 1 {
                    let mut acc = Expansion::empty();
                    let mut i: usize = 0;
                    while i < v.len()
                        invariant
                            i <= v@.len(),
                            depth <= MAX_DEPTH,
                        self.lowering == old(self).lowering,
                            visit_step((old(self).nodes, old(self).payload_bytes), depth as int)
                                == Ok::<Counts, CompilationError>(s1),
                        visit_step((old(self).nodes, old(self).payload_bytes), depth as int) == Ok::<
                            Counts,
                            CompilationError,
                        >(s1),
                            *clause == Clause::Threshold(*k, *v),
                            split && *k == 1,
                            split_fold(s1, v@, depth + 1, i as int) == Ok::<
                                (Counts, Expansion),
                                CompilationError,
                            >(((self.nodes, self.payload_bytes), acc)),
                        decreases v@.len() - i,
                    {
                        proof {
                            lemma_threshold_decreases(*clause, i as int);
                        }
                        let child = match self.clause(&v[i], depth + 1, true) {
                            Ok(c) => c,
                            Err(e) => {
                                proof {
                                    lemma_split_err_stays(s1, v@, depth + 1, i + 1, v@.len() as int);
                                }
                                return Err(e);
                            },
                        };
                        acc = match acc.or(child) {
                            Ok(a) => a,
                            Err(e) => {
                                proof {
                                    lemma_split_err_stays(s1, v@, depth + 1, i + 1, v@.len() as int);
                                }
                                return Err(e);
                            },
                        };
                        i += 1;
                    }
                    Ok(acc)
                } else {
                    let mut pay: usize = 0;
                    let mut i: usize = 0;
                    while i < v.len()
                        invariant
                            i <= v@.len(),
                            depth <= MAX_DEPTH,
                        self.lowering == old(self).lowering,
                            visit_step((old(self).nodes, old(self).payload_bytes), depth as int)
                                == Ok::<Counts, CompilationError>(s1),
                        visit_step((old(self).nodes, old(self).payload_bytes), depth as int) == Ok::<
                            Counts,
                            CompilationError,
                        >(s1),
                            *clause == Clause::Threshold(*k, *v),
                            !(split && *k == 1),
                            sum_fold(s1, v@, depth + 1, i as int) == Ok::<
                                (Counts, usize),
                                CompilationError,
                            >(((self.nodes, self.payload_bytes), pay)),
                        decreases v@.len() - i,
                    {
                        proof {
                            lemma_threshold_decreases(*clause, i as int);
                        }
                        let child = match self.clause(&v[i], depth + 1, false) {
                            Ok(c) => c,
                            Err(e) => {
                                proof {
                                    lemma_sum_err_stays(s1, v@, depth + 1, i + 1, v@.len() as int);
                                }
                                return Err(e);
                            },
                        };
                        pay = match pay.checked_add(child.payload_bytes) {
                            Some(p) => p,
                            None => {
                                proof {
                                    lemma_sum_err_stays(s1, v@, depth + 1, i + 1, v@.len() as int);
                                }
                                return Err(
                                    CompilationError::PolicyLimit {
                                        resource: PolicyResource::ExpandedScriptBytes,
                                        limit: MAX_SCRIPT_BYTES,
                                    },
                                );
                            },
                        };
                        i += 1;
                    }
                    Ok(Expansion { alternatives: 1, operands: 1, payload_bytes: pay })
                }
            },
            Clause::And(v) => {
                let mut pay: usize = 0;
                let mut i: usize = 0;
                while i < v.len()
                    invariant
                        i <= v@.len(),
                        depth <= MAX_DEPTH,
                        self.lowering == old(self).lowering,
                        visit_step((old(self).nodes, old(self).payload_bytes), depth as int) == Ok::<
                            Counts,
                            CompilationError,
                        >(s1),
                        *clause == Clause::And(*v),
                        sum_fold(s1, v@, depth + 1, i as int) == Ok::<
                            (Counts, usize),
                            CompilationError,
                        >(((self.nodes, self.payload_bytes), pay)),
                    decreases v@.len() - i,
                {
                    proof {
                        lemma_child_decreases(*clause, i as int);
                    }
                    let child = match self.clause(&v[i], depth + 1, false) {
                        Ok(c) => c,
                        Err(e) => {
                            proof {
                                lemma_sum_err_stays(s1, v@, depth + 1, i + 1, v@.len() as int);
                            }
                            return Err(e);
                        },
                    };
                    pay = match pay.checked_add(child.payload_bytes) {
                        Some(p) => p,
                        None => {
                            proof {
                                lemma_sum_err_stays(s1, v@, depth + 1, i + 1, v@.len() as int);
                            }
                            return Err(
                                CompilationError::PolicyLimit {
                                    resource: PolicyResource::ExpandedScriptBytes,
                                    limit: MAX_SCRIPT_BYTES,
                                },
                            );
                        },
                    };
                    i += 1;
                }
                Ok(Expansion { alternatives: 1, operands: 1, payload_bytes: pay })
            },
            Clause::Inscribe(ins, child) => {
                let bytes = match inscription_payload_bytes(ins) {
                    Ok(b) => b,
                    Err(e) => return Err(e),
                };
                match self.payload(bytes) {
                    Ok(_) => {},
                    Err(e) => return Err(e),
                }
                let inner = match self.clause(child, depth + 1, false) {
                    Ok(c) => c,
                    Err(e) => return Err(e),
                };
                match bytes.checked_add(inner.payload_bytes) {
                    Some(p) => Ok(Expansion { alternatives: 1, operands: 1, payload_bytes: p }),
                    None => Err(
                        CompilationError::PolicyLimit {
                            resource: PolicyResource::ExpandedScriptBytes,
                            limit: MAX_SCRIPT_BYTES,
                        },
                    ),
                }
            },
            _ => Ok(Expansion { alternatives: 1, operands: 1, payload_bytes: 0 }),
        }
    }
}


/// The first structural fault of a native policy, if any: conjunctions and
/// choices are binary, thresholds require between one and all operands, and
/// locks are nonzero; every node is checked, in order, including those an
/// optimization would discard.
pub open spec fn validate_spec(c: Clause) -> Option<CompilationError>
    decreases c, 0int,
{
    match c {
        Clause::And(v) => if v@.len() != 2 {
            Some(CompilationError::InvalidPolicy(PolicyFault::NonBinaryAnd))
        } else {
            validate_all(v@, 2)
        },
        Clause::Or(v) => if v@.len() != 2 {
            Some(CompilationError::InvalidPolicy(PolicyFault::NonBinaryOr))
        } else {
            validate_choices(v@, 2)
        },
        Clause::Threshold(k, v) => if k == 0 || k > v@.len() {
            Some(CompilationError::InvalidPolicy(PolicyFault::InvalidThreshold))
        } else {
            validate_all(v@, v@.len() as int)
        },
        Clause::Inscribe(_, child) => validate_spec(*child),
        Clause::Older(lock) => if lock == 0 {
            Some(CompilationError::InvalidPolicy(PolicyFault::ZeroRelativeLock))
        } else {
            None
        },
        Clause::After(lock) => if lock == 0 {
            Some(CompilationError::InvalidPolicy(PolicyFault::ZeroAbsoluteLock))
        } else {
            None
        },
        _ => None,
    }
}

/// The first fault among the first `k` policies, in order.
pub open spec fn validate_all(s: Seq<Clause>, k: int) -> Option<CompilationError>
    decreases s, k,
{
    if k <= 0 || k > s.len() {
        None
    } else {
        match validate_all(s, k - 1) {
            Some(e) => Some(e),
            None => validate_spec(s[k - 1]),
        }
    }
}

/// The first fault among the first `k` alternatives, in order.
pub open spec fn validate_choices(s: Seq<(usize, Clause)>, k: int) -> Option<CompilationError>
    decreases s, k,
{
    if k <= 0 || k > s.len() {
        None
    } else {
        match validate_choices(s, k - 1) {
            Some(e) => Some(e),
            None => validate_spec(s[k - 1].1),
        }
    }
}

proof fn lemma_inscribed_decreases(c: Clause)
    requires
        c is Inscribe,
    ensures
        decreases_to!(c => *c->Inscribe_1),
{
}

/// Check every node of a native policy before conjunction simplification or
/// leaf splitting.
pub fn validate_policy(policy: &Clause) -> (r: Result<(), CompilationError>)
    ensures
        r is Ok <==> validate_spec(*policy) is None,
        r matches Err(e) ==> validate_spec(*policy) == Some(e),
    decreases policy,
{
    match policy {
        Clause::And(v) => {
            if v.len() != 2 {
                return Err(CompilationError::InvalidPolicy(PolicyFault::NonBinaryAnd));
            }
            let mut i: usize = 0;
            while i < 2
                invariant
                    i <= 2,
                    v@.len() == 2,
                    *policy == Clause::And(*v),
                    validate_all(v@, i as int) is None,
                decreases 2 - i,
            {
                proof {
                    lemma_child_decreases(*policy, i as int);
                }
                match validate_policy(&v[i]) {
                    Ok(_) => {},
                    Err(e) => {
                        if i == 0 {
                            assert(validate_all(v@, 2) == validate_all(v@, 1));
                        }
                        return Err(e);
                    },
                }
                i += 1;
            }
            Ok(())
        },
        Clause::Or(v) => {
            if v.len() != 2 {
                return Err(CompilationError::InvalidPolicy(PolicyFault::NonBinaryOr));
            }
            let mut i: usize = 0;
            while i < 2
                invariant
                    i <= 2,
                    v@.len() == 2,
                    *policy == Clause::Or(*v),
                    validate_choices(v@, i as int) is None,
                decreases 2 - i,
            {
                proof {
                    lemma_alternative_decreases(*policy, i as int);
                }
                match validate_policy(&v[i].1) {
                    Ok(_) => {},
                    Err(e) => {
                        if i == 0 {
                            assert(validate_choices(v@, 2) == validate_choices(v@, 1));
                        }
                        return Err(e);
                    },
                }
                i += 1;
            }
            Ok(())
        },
        Clause::Threshold(k, v) => {
            if *k == 0 || *k > v.len() {
                return Err(CompilationError::InvalidPolicy(PolicyFault::InvalidThreshold));
            }
            let mut i: usize = 0;
            while i < v.len()
                invariant
                    i <= v@.len(),
                    *policy == Clause::Threshold(*k, *v),
                    1 <= *k <= v@.len(),
                    validate_all(v@, i as int) is None,
                decreases v@.len() - i,
            {
                proof {
                    lemma_threshold_decreases(*policy, i as int);
                }
                match validate_policy(&v[i]) {
                    Ok(_) => {},
                    Err(e) => {
                        proof {
                            lemma_validate_err_stays(v@, i + 1, v@.len() as int);
                        }
                        return Err(e);
                    },
                }
                i += 1;
            }
            Ok(())
        },
        Clause::Inscribe(_, child) => {
            proof {
                lemma_inscribed_decreases(*policy);
            }
            validate_policy(child)
        },
        Clause::Older(lock) => if *lock == 0 {
            Err(CompilationError::InvalidPolicy(PolicyFault::ZeroRelativeLock))
        } else {
            Ok(())
        },
        Clause::After(lock) => if *lock == 0 {
            Err(CompilationError::InvalidPolicy(PolicyFault::ZeroAbsoluteLock))
        } else {
            Ok(())
        },
        _ => {
            Ok(())
        },
    }
}

proof fn lemma_validate_err_stays(s: Seq<Clause>, k: int, m: int)
    requires
        0 <= k <= m <= s.len(),
        validate_all(s, k) is Some,
    ensures
        validate_all(s, m) == validate_all(s, k),
    decreases m - k,
{
    if m > k {
        lemma_validate_err_stays(s, k, m - 1);
    }
}


/// The signer count and threshold of an emulating lowering.
pub open spec fn signer_plan(l: Option<LoweringPlan>) -> Option<(int, usize)> {
    match l {
        Some(LoweringPlan::CtvEmulation { signers, threshold }) => Some(
            (signers@.len() as int, threshold),
        ),
        _ => None,
    }
}

/// Count `n` nodes at `depth`.
pub open spec fn visits(st: Counts, depth: int, n: int) -> Result<Counts, CompilationError>
    decreases n,
{
    if n <= 0 {
        Ok(st)
    } else {
        match visits(st, depth, n - 1) {
            Err(e) => Err(e),
            Ok(s) => visit_step(s, depth),
        }
    }
}

/// Preflight of a source policy at `depth`, under an emulating lowering's
/// signer count and threshold when there is one.
pub open spec fn policy_spec(
    st: Counts,
    p: ScriptPolicy,
    depth: int,
    signers: Option<(int, usize)>,
) -> Result<(Counts, Expansion), CompilationError>
    decreases p, 0int,
{
    match visit_step(st, depth) {
        Err(e) => Err(e),
        Ok(s1) => match p {
            ScriptPolicy::Program(pr) => {
                let b: int = pr.program@.len() as int + pr.parameters@.len() as int;
                if b > usize::MAX {
                    Err(limit_error(PolicyResource::SourceScriptBytes, MAX_SCRIPT_BYTES))
                } else {
                    match payload_step(s1, b) {
                        Err(e) => Err(e),
                        Ok(s2) => Ok((s2, single(b as usize))),
                    }
                }
            },
            ScriptPolicy::Emulatable(_) => match visit_step(s1, depth + 1) {
                Err(e) => Err(e),
                Ok(s2) => match signers {
                    Some((n, t)) => if n > 1 {
                        match visits(s2, depth + 2, n) {
                            Err(e) => Err(e),
                            Ok(s3) => if t == 1 {
                                match checked_spec(Some(n as usize), Some(n as usize), Some(0)) {
                                    Err(e) => Err(e),
                                    Ok(x) => Ok((s3, x)),
                                }
                            } else {
                                Ok((s3, single(0)))
                            },
                        }
                    } else {
                        Ok((s2, single(0)))
                    },
                    None => Ok((s2, single(0))),
                },
            },
            ScriptPolicy::Miniscript(c) => match clause_spec(s1, c, depth + 1, true) {
                Err(e) => Err(e),
                Ok((s2, x)) => match validate_spec(c) {
                    Some(e) => Err(e),
                    None => Ok((s2, x)),
                },
            },
            ScriptPolicy::Script(b) => match payload_step(s1, b@.len() as int) {
                Err(e) => Err(e),
                Ok(s2) => Ok((s2, single(b@.len() as usize))),
            },
            ScriptPolicy::And(v) => conj_fold(s1, v@, depth + 1, signers, v@.len() as int),
            ScriptPolicy::Or(v) => disj_fold(s1, v@, depth + 1, signers, v@.len() as int),
        },
    }
}

/// The conjunction of the first `k` policies, in order, starting from the
/// trivially true expansion.
pub open spec fn conj_fold(
    st: Counts,
    s: Seq<ScriptPolicy>,
    depth: int,
    signers: Option<(int, usize)>,
    k: int,
) -> Result<(Counts, Expansion), CompilationError>
    decreases s, k,
{
    if k <= 0 || k > s.len() {
        Ok((st, Expansion { alternatives: 1, operands: 0, payload_bytes: 0 }))
    } else {
        match conj_fold(st, s, depth, signers, k - 1) {
            Err(e) => Err(e),
            Ok((s1, acc)) => match policy_spec(s1, s[k - 1], depth, signers) {
                Err(e) => Err(e),
                Ok((s2, child)) => match and_spec(acc, child) {
                    Err(e) => Err(e),
                    Ok(a2) => Ok((s2, a2)),
                },
            },
        }
    }
}

/// The choice among the first `k` policies, in order, starting from no
/// alternative.
pub open spec fn disj_fold(
    st: Counts,
    s: Seq<ScriptPolicy>,
    depth: int,
    signers: Option<(int, usize)>,
    k: int,
) -> Result<(Counts, Expansion), CompilationError>
    decreases s, k,
{
    if k <= 0 || k > s.len() {
        Ok((st, Expansion { alternatives: 0, operands: 0, payload_bytes: 0 }))
    } else {
        match disj_fold(st, s, depth, signers, k - 1) {
            Err(e) => Err(e),
            Ok((s1, acc)) => match policy_spec(s1, s[k - 1], depth, signers) {
                Err(e) => Err(e),
                Ok((s2, child)) => match or_spec(acc, child) {
                    Err(e) => Err(e),
                    Ok(a2) => Ok((s2, a2)),
                },
            },
        }
    }
}

proof fn lemma_conj_err_stays(
    st: Counts,
    s: Seq<ScriptPolicy>,
    depth: int,
    signers: Option<(int, usize)>,
    k: int,
    m: int,
)
    requires
        0 <= k <= m <= s.len(),
        conj_fold(st, s, depth, signers, k) is Err,
    ensures
        conj_fold(st, s, depth, signers, m) == conj_fold(st, s, depth, signers, k),
    decreases m - k,
{
    if m > k {
        lemma_conj_err_stays(st, s, depth, signers, k, m - 1);
    }
}

proof fn lemma_disj_err_stays(
    st: Counts,
    s: Seq<ScriptPolicy>,
    depth: int,
    signers: Option<(int, usize)>,
    k: int,
    m: int,
)
    requires
        0 <= k <= m <= s.len(),
        disj_fold(st, s, depth, signers, k) is Err,
    ensures
        disj_fold(st, s, depth, signers, m) == disj_fold(st, s, depth, signers, k),
    decreases m - k,
{
    if m > k {
        lemma_disj_err_stays(st, s, depth, signers, k, m - 1);
    }
}

proof fn lemma_visits_err_stays(st: Counts, depth: int, k: int, m: int)
    requires
        0 <= k <= m,
        visits(st, depth, k) is Err,
    ensures
        visits(st, depth, m) == visits(st, depth, k),
    decreases m - k,
{
    if m > k {
        lemma_visits_err_stays(st, depth, k, m - 1);
    }
}

pub(crate) proof fn lemma_policy_child_decreases(p: ScriptPolicy, i: int)
    requires
        p is And || p is Or,
        0 <= i < (if p is And {
            p->And_0@.len()
        } else {
            p->Or_0@.len()
        }),
    ensures
        p is And ==> decreases_to!(p => p->And_0@[i]),
        p is Or ==> decreases_to!(p => p->Or_0@[i]),
{
    if p is And {
        let v = p->And_0;
        assert(decreases_to!(p => v));
        assert(decreases_to!(v => v@));
        assert(decreases_to!(v@ => v@[i]));
    } else {
        let v = p->Or_0;
        assert(decreases_to!(p => v));
        assert(decreases_to!(v => v@));
        assert(decreases_to!(v@ => v@[i]));
    }
}

impl Preflight {
    /// Bound a source policy at `depth` before any of it is lowered: each
    /// node is counted, source payloads are counted once, native policies
    /// are validated, and the expansion into alternatives is bounded.
    pub fn policy(&mut self, policy: &ScriptPolicy, depth: usize) -> (r: Result<
        Expansion,
        CompilationError,
    >)
        ensures
            final(self).lowering == old(self).lowering,
            match policy_spec(
                (old(self).nodes, old(self).payload_bytes),
                *policy,
                depth as int,
                signer_plan(old(self).lowering),
            ) {
                Err(e) => r == Err::<Expansion, CompilationError>(e),
                Ok((st, ex)) => r == Ok::<Expansion, CompilationError>(ex) && final(self).nodes
                    == st.0 && final(self).payload_bytes == st.1,
            },
        decreases policy,
    {
        let ghost signers = signer_plan(self.lowering);
        match self.visit(depth) {
            Ok(_) => {},
            Err(e) => return Err(e),
        }
        let ghost s1: Counts = (self.nodes, self.payload_bytes);
        match policy {
            ScriptPolicy::Program(program) => {
                let bytes = match program.program.len().checked_add(program.parameters.len()) {
                    Some(b) => b,
                    None => return Err(
                        CompilationError::PolicyLimit {
                            resource: PolicyResource::SourceScriptBytes,
                            limit: MAX_SCRIPT_BYTES,
                        },
                    ),
                };
                match self.payload(bytes) {
                    Ok(_) => {},
                    Err(e) => return Err(e),
                }
                Ok(Expansion { alternatives: 1, operands: 1, payload_bytes: bytes })
            },
            ScriptPolicy::Emulatable(_) => {
                match self.visit(depth + 1) {
                    Ok(_) => {},
                    Err(e) => return Err(e),
                }
                let ghost s2: Counts = (self.nodes, self.payload_bytes);
                let plan = match &self.lowering {
                    Some(LoweringPlan::CtvEmulation { signers, threshold }) => Some(
                        (signers.len(), *threshold),
                    ),
                    _ => None,
                };
                match plan {
                    Some((n, t)) => {
                        if n > 1 {
                            let mut i: usize = 0;
                            while i < n
                                invariant
                                    i <= n,
                                    n > 1,
                                    depth <= MAX_DEPTH,
                                    signers == signer_plan(old(self).lowering),
                                    signers == Some((n as int, t)),
                                    visit_step((old(self).nodes, old(self).payload_bytes), depth as int)
                                        == Ok::<Counts, CompilationError>(s1),
                                    visit_step(s1, depth + 1) == Ok::<Counts, CompilationError>(s2),
                                    *policy is Emulatable,
                                    visits(s2, depth + 2, i as int) == Ok::<Counts, CompilationError>(
                                        (self.nodes, self.payload_bytes),
                                    ),
                                    self.lowering == old(self).lowering,
                                decreases n - i,
                            {
                                match self.visit(depth + 2) {
                                    Ok(_) => {},
                                    Err(e) => {
                                        proof {
                                            lemma_visits_err_stays(s2, depth + 2, i + 1, n as int);
                                        }
                                        return Err(e);
                                    },
                                }
                                i += 1;
                            }
                            if t == 1 {
                                Expansion::checked(Some(n), Some(n), Some(0))
                            } else {
                                Ok(Expansion { alternatives: 1, operands: 1, payload_bytes: 0 })
                            }
                        } else {
                            Ok(Expansion { alternatives: 1, operands: 1, payload_bytes: 0 })
                        }
                    },
                    None => Ok(Expansion { alternatives: 1, operands: 1, payload_bytes: 0 }),
                }
            },
            ScriptPolicy::Miniscript(clause) => {
                let expansion = match self.clause(clause, depth + 1, true) {
                    Ok(x) => x,
                    Err(e) => return Err(e),
                };
                match validate_policy(clause) {
                    Ok(_) => {},
                    Err(e) => return Err(e),
                }
                Ok(expansion)
            },
            ScriptPolicy::Script(fragment) => {
                let bytes = fragment.len();
                match self.payload(bytes) {
                    Ok(_) => {},
                    Err(e) => return Err(e),
                }
                Ok(Expansion { alternatives: 1, operands: 1, payload_bytes: bytes })
            },
            ScriptPolicy::And(children) => {
                let mut acc = Expansion::truth();
                let mut i: usize = 0;
                while i < children.len()
                    invariant
                        i <= children@.len(),
                        depth <= MAX_DEPTH,
                        *policy == ScriptPolicy::And(*children),
                        signers == signer_plan(old(self).lowering),
                        self.lowering == old(self).lowering,
                        visit_step((old(self).nodes, old(self).payload_bytes), depth as int) == Ok::<
                            Counts,
                            CompilationError,
                        >(s1),
                        conj_fold(s1, children@, depth + 1, signers, i as int) == Ok::<
                            (Counts, Expansion),
                            CompilationError,
                        >(((self.nodes, self.payload_bytes), acc)),
                    decreases children@.len() - i,
                {
                    proof {
                        lemma_policy_child_decreases(*policy, i as int);
                    }
                    let child = match self.policy(&children[i], depth + 1) {
                        Ok(c) => c,
                        Err(e) => {
                            proof {
                                lemma_conj_err_stays(s1, children@, depth + 1, signers, i + 1, children@.len() as int);
                            }
                            return Err(e);
                        },
                    };
                    acc = match acc.and(child) {
                        Ok(a) => a,
                        Err(e) => {
                            proof {
                                lemma_conj_err_stays(s1, children@, depth + 1, signers, i + 1, children@.len() as int);
                            }
                            return Err(e);
                        },
                    };
                    i += 1;
                }
                Ok(acc)
            },
            ScriptPolicy::Or(children) => {
                let mut acc = Expansion::empty();
                let mut i: usize = 0;
                while i < children.len()
                    invariant
                        i <= children@.len(),
                        depth <= MAX_DEPTH,
                        *policy == ScriptPolicy::Or(*children),
                        signers == signer_plan(old(self).lowering),
                        self.lowering == old(self).lowering,
                        visit_step((old(self).nodes, old(self).payload_bytes), depth as int) == Ok::<
                            Counts,
                            CompilationError,
                        >(s1),
                        disj_fold(s1, children@, depth + 1, signers, i as int) == Ok::<
                            (Counts, Expansion),
                            CompilationError,
                        >(((self.nodes, self.payload_bytes), acc)),
                    decreases children@.len() - i,
                {
                    proof {
                        lemma_policy_child_decreases(*policy, i as int);
                    }
                    let child = match self.policy(&children[i], depth + 1) {
                        Ok(c) => c,
                        Err(e) => {
                            proof {
                                lemma_disj_err_stays(s1, children@, depth + 1, signers, i + 1, children@.len() as int);
                            }
                            return Err(e);
                        },
                    };
                    acc = match acc.or(child) {
                        Ok(a) => a,
                        Err(e) => {
                            proof {
                                lemma_disj_err_stays(s1, children@, depth + 1, signers, i + 1, children@.len() as int);
                            }
                            return Err(e);
                        },
                    };
                    i += 1;
                }
                Ok(acc)
            },
        }
    }
}


/// Some node of the policy satisfies `pick`: 0 for an emulated program, 1
/// for a raw script fragment, 2 for a covenant predicate.
pub open spec fn contains_kind(p: ScriptPolicy, pick: int) -> bool
    decreases p,
{
    match p {
        ScriptPolicy::Program(_) => pick == 0,
        ScriptPolicy::Script(_) => pick == 1,
        ScriptPolicy::Emulatable(_) => pick == 2,
        ScriptPolicy::Miniscript(_) => false,
        ScriptPolicy::And(v) => exists|i: int| 0 <= i < v@.len() && contains_kind(#[trigger] v@[i], pick),
        ScriptPolicy::Or(v) => exists|i: int| 0 <= i < v@.len() && contains_kind(#[trigger] v@[i], pick),
    }
}

/// Whether some node of the policy is of the picked kind.
fn contains(policy: &ScriptPolicy, pick: u8) -> (r: bool)
    requires
        pick <= 2,
    ensures
        r == contains_kind(*policy, pick as int),
    decreases policy,
{
    match policy {
        ScriptPolicy::Program(_) => pick == 0,
        ScriptPolicy::Script(_) => pick == 1,
        ScriptPolicy::Emulatable(_) => pick == 2,
        ScriptPolicy::Miniscript(_) => false,
        ScriptPolicy::And(v) => {
            let mut i: usize = 0;
            while i < v.len()
                invariant
                    i <= v@.len(),
                    pick <= 2,
                    *policy == ScriptPolicy::And(*v),
                    forall|k: int| 0 <= k < i ==> !contains_kind(#[trigger] v@[k], pick as int),
                decreases v@.len() - i,
            {
                proof {
                    lemma_policy_child_decreases(*policy, i as int);
                }
                if contains(&v[i], pick) {
                    assert(contains_kind(v@[i as int], pick as int));
                    return true;
                }
                i += 1;
            }
            false
        },
        ScriptPolicy::Or(v) => {
            let mut i: usize = 0;
            while i < v.len()
                invariant
                    i <= v@.len(),
                    pick <= 2,
                    *policy == ScriptPolicy::Or(*v),
                    forall|k: int| 0 <= k < i ==> !contains_kind(#[trigger] v@[k], pick as int),
                decreases v@.len() - i,
            {
                proof {
                    lemma_policy_child_decreases(*policy, i as int);
                }
                if contains(&v[i], pick) {
                    assert(contains_kind(v@[i as int], pick as int));
                    return true;
                }
                i += 1;
            }
            false
        },
    }
}

/// Whether the policy holds an emulated program anywhere.
pub fn contains_program(policy: &ScriptPolicy) -> (r: bool)
    ensures
        r == contains_kind(*policy, 0),
{
    contains(policy, 0)
}

/// Whether the policy holds a raw script fragment anywhere.
pub fn contains_raw(policy: &ScriptPolicy) -> (r: bool)
    ensures
        r == contains_kind(*policy, 1),
{
    contains(policy, 1)
}

/// Refuse a policy that still holds a covenant predicate only a lowering can
/// resolve.
pub fn reject_unresolved(policy: &ScriptPolicy) -> (r: Result<(), CompilationError>)
    ensures
        r is Ok <==> !contains_kind(*policy, 2),
        r matches Err(e) ==> e == CompilationError::UnresolvedEmulation,
{
    if contains(policy, 2) {
        Err(CompilationError::UnresolvedEmulation)
    } else {
        Ok(())
    }
}

/// Validate one source policy: its structure, work limits and expansion,
/// without a lowering.
pub fn validate_source(policy: &ScriptPolicy) -> (r: Result<(), CompilationError>)
    ensures
        r is Ok <==> policy_spec((0, 0), *policy, 0, None) is Ok,
        r matches Err(e) ==> policy_spec((0, 0), *policy, 0, None) == Err::<
            (Counts, Expansion),
            CompilationError,
        >(e),
{
    let mut preflight = Preflight::new(None);
    match preflight.policy(policy, 0) {
        Ok(_) => Ok(()),
        Err(e) => Err(e),
    }
}

/// Sources checked together: one shared count of work, and their
/// alternatives combined, in order.
pub open spec fn sources_spec(st: Counts, s: Seq<ScriptPolicy>, k: int) -> Result<
    (Counts, Expansion),
    CompilationError,
>
    decreases k,
{
    if k <= 0 || k > s.len() {
        Ok((st, Expansion { alternatives: 0, operands: 0, payload_bytes: 0 }))
    } else {
        match sources_spec(st, s, k - 1) {
            Err(e) => Err(e),
            Ok((s1, acc)) => match policy_spec(s1, s[k - 1], 0, None) {
                Err(e) => Err(e),
                Ok((s2, x)) => match or_spec(acc, x) {
                    Err(e) => Err(e),
                    Ok(a2) => Ok((s2, a2)),
                },
            },
        }
    }
}

proof fn lemma_sources_err_stays(st: Counts, s: Seq<ScriptPolicy>, k: int, m: int)
    requires
        0 <= k <= m <= s.len(),
        sources_spec(st, s, k) is Err,
    ensures
        sources_spec(st, s, m) == sources_spec(st, s, k),
    decreases m - k,
{
    if m > k {
        lemma_sources_err_stays(st, s, k, m - 1);
    }
}

/// Validate several source policies as the alternatives of one output:
/// work is counted once across all of them and their alternatives together
/// must stay within the limits.
pub fn validate_sources(policies: &Vec<ScriptPolicy>) -> (r: Result<(), CompilationError>)
    ensures
        r is Ok <==> sources_spec((0, 0), policies@, policies@.len() as int) is Ok,
        r matches Err(e) ==> sources_spec((0, 0), policies@, policies@.len() as int) == Err::<
            (Counts, Expansion),
            CompilationError,
        >(e),
{
    let mut preflight = Preflight::new(None);
    let mut expansion = Expansion::empty();
    let mut i: usize = 0;
    while i < policies.len()
        invariant
            i <= policies@.len(),
            preflight.lowering is None,
            sources_spec((0, 0), policies@, i as int) == Ok::<(Counts, Expansion), CompilationError>(
                ((preflight.nodes, preflight.payload_bytes), expansion),
            ),
        decreases policies@.len() - i,
    {
        let x = match preflight.policy(&policies[i], 0) {
            Ok(x) => x,
            Err(e) => {
                proof {
                    lemma_sources_err_stays((0, 0), policies@, i + 1, policies@.len() as int);
                }
                return Err(e);
            },
        };
        expansion = match expansion.or(x) {
            Ok(a) => a,
            Err(e) => {
                proof {
                    lemma_sources_err_stays((0, 0), policies@, i + 1, policies@.len() as int);
                }
                return Err(e);
            },
        };
        i += 1;
    }
    Ok(())
}

} // verus!
