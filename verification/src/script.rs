//! Work limits for lowering policy alternatives to Tapscript.
use vstd::prelude::*;
use crate::error::{CompilationError, PolicyResource};
use crate::policy::LoweringPlan;

verus! {

/// Deepest nesting a policy may have.
pub const MAX_DEPTH: usize = 128;

/// Most nodes a policy may have.
pub const MAX_NODES: usize = 65_536;

/// Most spending alternatives a policy may expand to.
pub const MAX_ALTERNATIVES: usize = 1_024;

/// Most operands across all expanded alternatives.
pub const MAX_EXPANDED_OPERANDS: usize = 65_536;

/// Most source payload, expanded payload and cumulative encoded script bytes
/// for one lowering operation. This is a work limit, not a consensus
/// script-size limit or a witness-size estimate.
pub const MAX_SCRIPT_BYTES: usize = 16_777_216;

/// Most branches one contract may have.
pub const MAX_BRANCHES: usize = 1_024;

/// The opcode that separates conjoined predicates.
pub const OP_VERIFY: u8 = 0x69;

/// The error for an exhausted resource.
pub open spec fn limit_error(resource: PolicyResource, limit: usize) -> CompilationError {
    CompilationError::PolicyLimit { resource, limit }
}

/// The size of a policy's expansion into spending alternatives.
#[derive(Debug, Clone, Copy, PartialEq, Eq, Structural)]
pub struct Expansion {
    /// Number of spending alternatives.
    pub alternatives: usize,
    /// Operands across all alternatives.
    pub operands: usize,
    /// Script payload bytes across all alternatives.
    pub payload_bytes: usize,
}

/// A sum, where it fits in a `usize`.
pub open spec fn sum_opt(x: usize, y: usize) -> Option<usize> {
    if x + y <= usize::MAX {
        Some((x + y) as usize)
    } else {
        None
    }
}

/// A product, where it fits in a `usize`.
pub open spec fn product_opt(x: usize, y: usize) -> Option<usize> {
    if x * y <= usize::MAX {
        Some((x * y) as usize)
    } else {
        None
    }
}

/// `x * a + y * b`, where every step fits in a `usize`.
pub open spec fn cross_opt(x: usize, a: usize, y: usize, b: usize) -> Option<usize> {
    match (product_opt(x, a), product_opt(y, b)) {
        (Some(l), Some(r)) => sum_opt(l, r),
        _ => None,
    }
}

/// An expansion whose counts are all present and within their limits.
pub open spec fn checked_spec(
    alternatives: Option<usize>,
    operands: Option<usize>,
    payload_bytes: Option<usize>,
) -> Result<Expansion, CompilationError> {
    if !(alternatives matches Some(a) && a <= MAX_ALTERNATIVES) {
        Err(limit_error(PolicyResource::TaprootAlternatives, MAX_ALTERNATIVES))
    } else if !(operands matches Some(o) && o <= MAX_EXPANDED_OPERANDS) {
        Err(limit_error(PolicyResource::ExpandedOperands, MAX_EXPANDED_OPERANDS))
    } else if !(payload_bytes matches Some(p) && p <= MAX_SCRIPT_BYTES) {
        Err(limit_error(PolicyResource::ExpandedScriptBytes, MAX_SCRIPT_BYTES))
    } else {
        Ok(
            Expansion {
                alternatives: alternatives->Some_0,
                operands: operands->Some_0,
                payload_bytes: payload_bytes->Some_0,
            },
        )
    }
}

/// The expansion of a choice between two policies.
pub open spec fn or_spec(x: Expansion, y: Expansion) -> Result<Expansion, CompilationError> {
    checked_spec(
        sum_opt(x.alternatives, y.alternatives),
        sum_opt(x.operands, y.operands),
        sum_opt(x.payload_bytes, y.payload_bytes),
    )
}

/// The expansion of a conjunction of two policies: every alternative of one
/// with every alternative of the other.
pub open spec fn and_spec(x: Expansion, y: Expansion) -> Result<Expansion, CompilationError> {
    checked_spec(
        product_opt(x.alternatives, y.alternatives),
        cross_opt(x.operands, y.alternatives, y.operands, x.alternatives),
        cross_opt(x.payload_bytes, y.alternatives, y.payload_bytes, x.alternatives),
    )
}

impl Expansion {
    /// No alternative at all.
    pub fn empty() -> (r: Self)
        ensures
            r == (Expansion { alternatives: 0, operands: 0, payload_bytes: 0 }),
    {
        Expansion { alternatives: 0, operands: 0, payload_bytes: 0 }
    }

    /// One alternative with nothing to satisfy.
    pub fn truth() -> (r: Self)
        ensures
            r == (Expansion { alternatives: 1, operands: 0, payload_bytes: 0 }),
    {
        Expansion { alternatives: 1, operands: 0, payload_bytes: 0 }
    }

    /// One alternative with one operand.
    pub fn one() -> (r: Self)
        ensures
            r == (Expansion { alternatives: 1, operands: 1, payload_bytes: 0 }),
    {
        Expansion { alternatives: 1, operands: 1, payload_bytes: 0 }
    }

    /// Accept the counts when each is present and within its limit.
    pub fn checked(
        alternatives: Option<usize>,
        operands: Option<usize>,
        payload_bytes: Option<usize>,
    ) -> (r: Result<Self, CompilationError>)
        ensures
            r == checked_spec(alternatives, operands, payload_bytes),
    {
        let alternatives = match alternatives {
            Some(a) => if a <= MAX_ALTERNATIVES {
                a
            } else {
                return Err(
                    CompilationError::PolicyLimit {
                        resource: PolicyResource::TaprootAlternatives,
                        limit: MAX_ALTERNATIVES,
                    },
                );
            },
            None => return Err(
                CompilationError::PolicyLimit {
                    resource: PolicyResource::TaprootAlternatives,
                    limit: MAX_ALTERNATIVES,
                },
            ),
        };
        let operands = match operands {
            Some(o) => if o <= MAX_EXPANDED_OPERANDS {
                o
            } else {
                return Err(
                    CompilationError::PolicyLimit {
                        resource: PolicyResource::ExpandedOperands,
                        limit: MAX_EXPANDED_OPERANDS,
                    },
                );
            },
            None => return Err(
                CompilationError::PolicyLimit {
                    resource: PolicyResource::ExpandedOperands,
                    limit: MAX_EXPANDED_OPERANDS,
                },
            ),
        };
        let payload_bytes = match payload_bytes {
            Some(p) => if p <= MAX_SCRIPT_BYTES {
                p
            } else {
                return Err(
                    CompilationError::PolicyLimit {
                        resource: PolicyResource::ExpandedScriptBytes,
                        limit: MAX_SCRIPT_BYTES,
                    },
                );
            },
            None => return Err(
                CompilationError::PolicyLimit {
                    resource: PolicyResource::ExpandedScriptBytes,
                    limit: MAX_SCRIPT_BYTES,
                },
            ),
        };
        Ok(Expansion { alternatives, operands, payload_bytes })
    }

    /// The expansion of a choice between the two policies.
    pub fn or(self, other: Self) -> (r: Result<Self, CompilationError>)
        ensures
            r == or_spec(self, other),
    {
        Self::checked(
            self.alternatives.checked_add(other.alternatives),
            self.operands.checked_add(other.operands),
            self.payload_bytes.checked_add(other.payload_bytes),
        )
    }

    /// The expansion of the conjunction of the two policies.
    pub fn and(self, other: Self) -> (r: Result<Self, CompilationError>)
        ensures
            r == and_spec(self, other),
    {
        let operands = match (
            self.operands.checked_mul(other.alternatives),
            other.operands.checked_mul(self.alternatives),
        ) {
            (Some(l), Some(r)) => l.checked_add(r),
            _ => None,
        };
        let payload_bytes = match (
            self.payload_bytes.checked_mul(other.alternatives),
            other.payload_bytes.checked_mul(self.alternatives),
        ) {
            (Some(l), Some(r)) => l.checked_add(r),
            _ => None,
        };
        Self::checked(self.alternatives.checked_mul(other.alternatives), operands, payload_bytes)
    }
}

/// The cumulative encoded size after appending a script of `script_size`
/// bytes, and a separator before it when asked, within the encoding limit.
pub open spec fn encoded_size_spec(total: usize, script_size: usize, separator: bool) -> Result<
    usize,
    CompilationError,
> {
    let bytes = total + script_size + if separator {
        1int
    } else {
        0
    };
    if bytes <= MAX_SCRIPT_BYTES {
        Ok(bytes as usize)
    } else {
        Err(limit_error(PolicyResource::EncodedScriptBytes, MAX_SCRIPT_BYTES))
    }
}

/// The cumulative encoded size after appending a script, and a separator
/// before it when asked, within the encoding limit.
pub fn encoded_size(total: usize, script_size: usize, separator: bool) -> (r: Result<
    usize,
    CompilationError,
>)
    ensures
        r == encoded_size_spec(total, script_size, separator),
{
    let sum = match total.checked_add(script_size) {
        Some(s) => s,
        None => return Err(
            CompilationError::PolicyLimit {
                resource: PolicyResource::EncodedScriptBytes,
                limit: MAX_SCRIPT_BYTES,
            },
        ),
    };
    let sum = match sum.checked_add(if separator { 1 } else { 0 }) {
        Some(s) => s,
        None => return Err(
            CompilationError::PolicyLimit {
                resource: PolicyResource::EncodedScriptBytes,
                limit: MAX_SCRIPT_BYTES,
            },
        ),
    };
    if sum <= MAX_SCRIPT_BYTES {
        Ok(sum)
    } else {
        Err(
            CompilationError::PolicyLimit {
                resource: PolicyResource::EncodedScriptBytes,
                limit: MAX_SCRIPT_BYTES,
            },
        )
    }
}

/// Append a script to a conjunction of predicates, separated from an earlier
/// predicate by `OP_VERIFY`, within the encoding limit. On error nothing
/// changes.
pub fn append_script(
    bytes: &mut Vec<u8>,
    script: &[u8],
    has_predicate: &mut bool,
    encoded_bytes: &mut usize,
) -> (r: Result<(), CompilationError>)
    ensures
        match encoded_size_spec(*old(encoded_bytes), script@.len() as usize, *old(has_predicate)) {
            Err(e) => r == Err::<(), CompilationError>(e) && final(bytes)@ == old(bytes)@
                && *final(has_predicate) == *old(has_predicate) && *final(encoded_bytes)
                == *old(encoded_bytes),
            Ok(n) => r is Ok && final(bytes)@ == (if *old(has_predicate) {
                old(bytes)@.push(OP_VERIFY)
            } else {
                old(bytes)@
            }) + script@ && *final(has_predicate) && *final(encoded_bytes) == n,
        },
{
    let next_size = match encoded_size(*encoded_bytes, script.len(), *has_predicate) {
        Ok(n) => n,
        Err(e) => return Err(e),
    };
    if *has_predicate {
        bytes.push(OP_VERIFY);
    }
    let ghost prefix = bytes@;
    let mut i: usize = 0;
    while i < script.len()
        invariant
            i <= script@.len(),
            bytes@ == prefix + script@.take(i as int),
        decreases script@.len() - i,
    {
        bytes.push(script[i]);
        assert(prefix + script@.take(i + 1) =~= (prefix + script@.take(i as int)).push(script@[i as int]));
        i += 1;
    }
    assert(script@.take(i as int) =~= script@);
    *has_predicate = true;
    *encoded_bytes = next_size;
    Ok(())
}

/// Counts of work done while checking a policy, nodes visited and source
/// payload bytes seen, under the lowering its covenant predicates will get.
#[derive(Debug)]
pub struct Preflight {
    /// How covenant predicates will be lowered, when known.
    pub lowering: Option<LoweringPlan>,
    /// Nodes visited so far.
    pub nodes: usize,
    /// Source payload bytes seen so far.
    pub payload_bytes: usize,
}

impl Preflight {
    /// No work done yet, under this lowering.
    pub fn new(lowering: Option<LoweringPlan>) -> (r: Self)
        ensures
            r == (Preflight { lowering, nodes: 0, payload_bytes: 0 }),
    {
        Preflight { lowering, nodes: 0, payload_bytes: 0 }
    }

    /// Count `bytes` more source payload, within the limit. On error the
    /// count is unchanged.
    pub fn payload(&mut self, bytes: usize) -> (r: Result<(), CompilationError>)
        ensures
            final(self).lowering == old(self).lowering,
            final(self).nodes == old(self).nodes,
            old(self).payload_bytes + bytes <= MAX_SCRIPT_BYTES ==> r is Ok && *final(self) == (
            Preflight { payload_bytes: (old(self).payload_bytes + bytes) as usize, ..*old(self) }),
            old(self).payload_bytes + bytes > MAX_SCRIPT_BYTES ==> r == Err::<(), CompilationError>(
                limit_error(PolicyResource::SourceScriptBytes, MAX_SCRIPT_BYTES),
            ) && *final(self) == *old(self),
    {
        match self.payload_bytes.checked_add(bytes) {
            Some(total) => {
                if total <= MAX_SCRIPT_BYTES {
                    self.payload_bytes = total;
                    Ok(())
                } else {
                    Err(
                        CompilationError::PolicyLimit {
                            resource: PolicyResource::SourceScriptBytes,
                            limit: MAX_SCRIPT_BYTES,
                        },
                    )
                }
            },
            None => Err(
                CompilationError::PolicyLimit {
                    resource: PolicyResource::SourceScriptBytes,
                    limit: MAX_SCRIPT_BYTES,
                },
            ),
        }
    }

    /// Count one more node at `depth`, within the depth and node limits.
    /// A node beyond the depth limit is not counted.
    pub fn visit(&mut self, depth: usize) -> (r: Result<(), CompilationError>)
        ensures
            final(self).lowering == old(self).lowering,
            final(self).payload_bytes == old(self).payload_bytes,
            depth > MAX_DEPTH ==> r == Err::<(), CompilationError>(
                limit_error(PolicyResource::PolicyDepth, MAX_DEPTH),
            ) && *final(self) == *old(self),
            depth <= MAX_DEPTH && old(self).nodes < MAX_NODES ==> r is Ok && *final(self) == (
            Preflight { nodes: (old(self).nodes + 1) as usize, ..*old(self) }),
            depth <= MAX_DEPTH && old(self).nodes >= MAX_NODES ==> r == Err::<(), CompilationError>(
                limit_error(PolicyResource::PolicyNodes, MAX_NODES),
            ) && final(self).payload_bytes == old(self).payload_bytes,
    {
        if depth > MAX_DEPTH {
            return Err(
                CompilationError::PolicyLimit { resource: PolicyResource::PolicyDepth, limit: MAX_DEPTH },
            );
        }
        if self.nodes >= MAX_NODES {
            self.nodes = if self.nodes < usize::MAX {
                self.nodes + 1
            } else {
                self.nodes
            };
            return Err(
                CompilationError::PolicyLimit { resource: PolicyResource::PolicyNodes, limit: MAX_NODES },
            );
        }
        self.nodes = self.nodes + 1;
        Ok(())
    }
}

/// Admission of branches `adds`, in order, after `count` branches holding
/// `bytes` script bytes: how many are admitted, and the limit that stops
/// admission, if one does.
pub open spec fn branches_admitted(count: int, bytes: int, adds: Seq<Seq<u8>>) -> (
    int,
    Option<CompilationError>,
)
    decreases adds.len(),
{
    if adds.len() == 0 {
        (0, None)
    } else if count == MAX_BRANCHES {
        (0, Some(limit_error(PolicyResource::ContractBranches, MAX_BRANCHES)))
    } else if bytes + adds[0].len() > MAX_SCRIPT_BYTES {
        (0, Some(limit_error(PolicyResource::ContractScriptBytes, MAX_SCRIPT_BYTES)))
    } else {
        let rest = branches_admitted(count + 1, bytes + adds[0].len(), adds.drop_first());
        (rest.0 + 1, rest.1)
    }
}

/// The scripts of some branches.
pub open spec fn script_views(s: Seq<Vec<u8>>) -> Seq<Seq<u8>> {
    s.map_values(|v: Vec<u8>| v@)
}

/// Total length of a sequence of scripts.
pub open spec fn scripts_len(s: Seq<Vec<u8>>) -> int
    decreases s.len(),
{
    if s.len() == 0 {
        0
    } else {
        scripts_len(s.drop_last()) + s.last()@.len()
    }
}

proof fn lemma_admitted_bounds(count: int, bytes: int, adds: Seq<Seq<u8>>)
    ensures
        0 <= branches_admitted(count, bytes, adds).0 <= adds.len(),
    decreases adds.len(),
{
    if adds.len() > 0 {
        lemma_admitted_bounds(count + 1, bytes + adds[0].len(), adds.drop_first());
    }
}

/// Admit compiled branches, by their encoded scripts, into a contract's
/// branches, in order, while the branch count and the cumulative script
/// bytes stay within their limits. Branches admitted before an error stay
/// admitted.
pub fn append_branches(
    branches: &mut Vec<Vec<u8>>,
    bytes: &mut usize,
    additions: Vec<Vec<u8>>,
) -> (r: Result<(), CompilationError>)
    ensures
        ({
            let (n, e) = branches_admitted(
                old(branches)@.len() as int,
                *old(bytes) as int,
                script_views(additions@),
            );
            &&& 0 <= n <= additions@.len()
            &&& final(branches)@ == old(branches)@ + additions@.take(n)
            &&& *final(bytes) == *old(bytes) + scripts_len(additions@.take(n))
            &&& match e {
                None => r is Ok,
                Some(err) => r == Err::<(), CompilationError>(err),
            }
        }),
{
    let ghost start = branches@;
    let ghost start_bytes = *bytes;
    let ghost all = additions@;
    let ghost av = script_views(all);
    proof {
        lemma_admitted_bounds(start.len() as int, start_bytes as int, av);
    }
    assert(all.len() == additions.len());
    assert(av.skip(0) =~= av);
    assert(all.take(0) =~= Seq::<Vec<u8>>::empty());
    let mut rest = additions;
    let mut i: usize = 0;
    while rest.len() > 0
        invariant
            i <= all.len(),
            all.len() <= usize::MAX,
            rest@ == all.skip(i as int),
            start == old(branches)@,
            start_bytes == *old(bytes),
            all == additions@,
            av == script_views(all),
            branches@ == start + all.take(i as int),
            *bytes == start_bytes + scripts_len(all.take(i as int)),
            branches_admitted(start.len() as int, start_bytes as int, av) == ({
                let t = branches_admitted(branches@.len() as int, *bytes as int, av.skip(i as int));
                (t.0 + i, t.1)
            }),
        decreases rest@.len(),
    {
        let ghost tail = av.skip(i as int);
        assert(tail.len() > 0);
        assert(tail[0] == rest@[0]@);
        assert(tail.drop_first() =~= av.skip(i + 1));
        if branches.len() == MAX_BRANCHES {
            proof {
                lemma_admitted_bounds(start.len() as int, start_bytes as int, av);
            }
            return Err(
                CompilationError::PolicyLimit {
                    resource: PolicyResource::ContractBranches,
                    limit: MAX_BRANCHES,
                },
            );
        }
        let size = rest[0].len();
        let total = match bytes.checked_add(size) {
            Some(t) => t,
            None => {
                return Err(
                    CompilationError::PolicyLimit {
                        resource: PolicyResource::ContractScriptBytes,
                        limit: MAX_SCRIPT_BYTES,
                    },
                );
            },
        };
        if total > MAX_SCRIPT_BYTES {
            return Err(
                CompilationError::PolicyLimit {
                    resource: PolicyResource::ContractScriptBytes,
                    limit: MAX_SCRIPT_BYTES,
                },
            );
        }
        *bytes = total;
        let branch = rest.remove(0);
        branches.push(branch);
        assert(all.take(i + 1).drop_last() =~= all.take(i as int));
        assert(branches@ =~= start + all.take(i + 1));
        assert(rest@ =~= all.skip(i + 1));
        i += 1;
    }
    assert(all.skip(i as int).len() == 0);
    assert(av.skip(i as int) =~= Seq::<Seq<u8>>::empty());
    Ok(())
}

/// An expansion within every limit.
pub open spec fn within_limits(x: Expansion) -> bool {
    x.alternatives <= MAX_ALTERNATIVES && x.operands <= MAX_EXPANDED_OPERANDS && x.payload_bytes
        <= MAX_SCRIPT_BYTES
}

/// Choice and conjunction of expansions do not depend on operand order;
/// the empty expansion is neutral for choice and the trivially true one for
/// conjunction.
pub proof fn lemma_expansion_laws(x: Expansion, y: Expansion)
    ensures
        or_spec(x, y) == or_spec(y, x),
        and_spec(x, y) == and_spec(y, x),
        within_limits(x) ==> or_spec(
            Expansion { alternatives: 0, operands: 0, payload_bytes: 0 },
            x,
        ) == Ok::<Expansion, CompilationError>(x),
        within_limits(x) ==> and_spec(
            Expansion { alternatives: 1, operands: 0, payload_bytes: 0 },
            x,
        ) == Ok::<Expansion, CompilationError>(x),
{
    assert(x.alternatives * y.alternatives == y.alternatives * x.alternatives) by (nonlinear_arith);
    assert(product_opt(x.alternatives, y.alternatives) == product_opt(y.alternatives, x.alternatives));
    assert(cross_opt(x.operands, y.alternatives, y.operands, x.alternatives) == cross_opt(
        y.operands,
        x.alternatives,
        x.operands,
        y.alternatives,
    ));
    assert(cross_opt(x.payload_bytes, y.alternatives, y.payload_bytes, x.alternatives)
        == cross_opt(y.payload_bytes, x.alternatives, x.payload_bytes, y.alternatives));
    assert(1 * x.alternatives == x.alternatives);
    assert(0 * x.alternatives == 0);
    assert(x.operands * 1 == x.operands);
    assert(x.payload_bytes * 1 == x.payload_bytes);
}

} // verus!
