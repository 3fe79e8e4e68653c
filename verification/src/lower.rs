//! Assembling one spending alternative into a Tapscript: raw fragments in
//! place, each maximal run of adjacent native operands compiled as one
//! predicate, predicates separated by `OP_VERIFY`.
use vstd::prelude::*;
use crate::error::CompilationError;
use crate::expand::Operand;
use crate::script::{OP_VERIFY, append_script, encoded_size, encoded_size_spec};

verus! {

/// The opcode that pushes true.
pub const OP_TRUE: u8 = 0x51;

/// Whether the operand at `i` begins a run of native operands: it is not a
/// raw fragment, and neither is it preceded by a native operand.
pub open spec fn starts_run<'a>(ops: Seq<Operand<'a>>, i: int) -> bool {
    !(ops[i] is Script) && (i == 0 || ops[i - 1] is Script)
}

/// Number of native runs among the first `k` operands.
pub open spec fn run_count<'a>(ops: Seq<Operand<'a>>, k: int) -> int
    decreases k,
{
    if k <= 0 {
        0
    } else {
        run_count(ops, k - 1) + if starts_run(ops, k - 1) {
            1int
        } else {
            0int
        }
    }
}

/// The native runs among the first `k` operands, in order.
pub open spec fn runs_fold<'a>(ops: Seq<Operand<'a>>, k: int) -> Seq<Seq<Operand<'a>>>
    decreases k,
{
    if k <= 0 || k > ops.len() {
        Seq::empty()
    } else {
        let r = runs_fold(ops, k - 1);
        if ops[k - 1] is Script {
            r
        } else if starts_run(ops, k - 1) {
            r.push(seq![ops[k - 1]])
        } else {
            r.update(r.len() - 1, r.last().push(ops[k - 1]))
        }
    }
}

/// Progress of assembling an alternative.
pub struct Assembly {
    /// Script bytes emitted so far.
    pub bytes: Seq<u8>,
    /// Whether a predicate was emitted, so the next needs a separator.
    pub has_predicate: bool,
    /// Cumulative encoded bytes, across alternatives.
    pub encoded: usize,
    /// Whether a native run is waiting to be emitted.
    pub pending: bool,
    /// Compiled runs emitted so far.
    pub used: int,
}

/// Emit a script as the next predicate, within the encoding limit.
pub open spec fn emit_spec(st: Assembly, script: Seq<u8>) -> Result<Assembly, CompilationError> {
    match encoded_size_spec(st.encoded, script.len() as usize, st.has_predicate) {
        Err(e) => Err(e),
        Ok(n) => Ok(
            Assembly {
                bytes: (if st.has_predicate {
                    st.bytes.push(OP_VERIFY)
                } else {
                    st.bytes
                }) + script,
                has_predicate: true,
                encoded: n,
                ..st
            },
        ),
    }
}

/// Emit the pending native run, if any, as its compiled script.
pub open spec fn flush_spec(st: Assembly, runs: Seq<Seq<u8>>) -> Result<Assembly, CompilationError> {
    if st.pending {
        match emit_spec(st, runs[st.used]) {
            Err(e) => Err(e),
            Ok(s) => Ok(Assembly { pending: false, used: st.used + 1, ..s }),
        }
    } else {
        Ok(st)
    }
}

/// Assembly after the first `k` operands.
pub open spec fn assemble_fold<'a>(
    st: Assembly,
    ops: Seq<Operand<'a>>,
    runs: Seq<Seq<u8>>,
    k: int,
) -> Result<Assembly, CompilationError>
    decreases k,
{
    if k <= 0 || k > ops.len() {
        Ok(st)
    } else {
        match assemble_fold(st, ops, runs, k - 1) {
            Err(e) => Err(e),
            Ok(s) => match ops[k - 1] {
                Operand::Script(f) => match flush_spec(s, runs) {
                    Err(e) => Err(e),
                    Ok(s2) => emit_spec(s2, f@),
                },
                _ => Ok(Assembly { pending: true, ..s }),
            },
        }
    }
}

/// The script of one alternative and the cumulative encoded size after it,
/// given the compiled script of each native run, in order. The empty
/// conjunction is explicitly true.
pub open spec fn compile_alternative_spec<'a>(
    ops: Seq<Operand<'a>>,
    runs: Seq<Seq<u8>>,
    encoded: usize,
) -> Result<(Seq<u8>, usize), CompilationError> {
    if ops.len() == 0 {
        match encoded_size_spec(encoded, 1, false) {
            Err(e) => Err(e),
            Ok(n) => Ok((seq![OP_TRUE], n)),
        }
    } else {
        let st = Assembly {
            bytes: Seq::empty(),
            has_predicate: false,
            encoded,
            pending: false,
            used: 0,
        };
        match assemble_fold(st, ops, runs, ops.len() as int) {
            Err(e) => Err(e),
            Ok(s) => match flush_spec(s, runs) {
                Err(e) => Err(e),
                Ok(s2) => Ok((s2.bytes, s2.encoded)),
            },
        }
    }
}

proof fn lemma_assemble_progress<'a>(
    st: Assembly,
    ops: Seq<Operand<'a>>,
    runs: Seq<Seq<u8>>,
    k: int,
)
    requires
        0 <= k <= ops.len(),
        !st.pending,
        st.used == 0,
        assemble_fold(st, ops, runs, k) is Ok,
    ensures
        ({
            let s = assemble_fold(st, ops, runs, k)->Ok_0;
            &&& s.used + (if s.pending {
                1int
            } else {
                0int
            }) == run_count(ops, k)
            &&& s.pending == (k > 0 && !(ops[k - 1] is Script))
        }),
    decreases k,
{
    if k > 0 {
        lemma_assemble_progress(st, ops, runs, k - 1);
    }
}

proof fn lemma_runs_fold_len<'a>(ops: Seq<Operand<'a>>, k: int)
    requires
        0 <= k <= ops.len(),
    ensures
        runs_fold(ops, k).len() == run_count(ops, k),
        k > 0 && !(ops[k - 1] is Script) ==> runs_fold(ops, k).len() > 0,
    decreases k,
{
    if k > 0 {
        lemma_runs_fold_len(ops, k - 1);
    }
}

/// The native runs of an alternative, in order: each maximal sequence of
/// adjacent operands that are not raw fragments. Each is compiled as one
/// predicate, so a native guard can protect an adjacent timelock.
pub fn native_runs<'a>(operands: &[Operand<'a>]) -> (r: Vec<Vec<Operand<'a>>>)
    ensures
        r@.map_values(|v: Vec<Operand<'a>>| v@) == runs_fold(operands@, operands@.len() as int),
        r@.len() == run_count(operands@, operands@.len() as int),
{
    let ghost ops = operands@;
    let mut out: Vec<Vec<Operand<'a>>> = Vec::new();
    let mut current: Vec<Operand<'a>> = Vec::new();
    let mut open = false;
    let mut i: usize = 0;
    while i < operands.len()
        invariant
            i <= ops.len(),
            ops == operands@,
            open == (i > 0 && !(ops[i - 1] is Script)),
            open ==> out@.map_values(|v: Vec<Operand<'a>>| v@).push(current@) == runs_fold(
                ops,
                i as int,
            ),
            !open ==> out@.map_values(|v: Vec<Operand<'a>>| v@) == runs_fold(ops, i as int),
        decreases ops.len() - i,
    {
        let ghost prev = out@.map_values(|v: Vec<Operand<'a>>| v@);
        let ghost cur = current@;
        match operands[i] {
            Operand::Script(_) => {
                if open {
                    let done = current;
                    current = Vec::new();
                    let ghost before = out@;
                    out.push(done);
                    assert(out@.map_values(|v: Vec<Operand<'a>>| v@) =~= before.map_values(
                        |v: Vec<Operand<'a>>| v@,
                    ).push(cur));
                    open = false;
                }
            },
            op => {
                if !open {
                    current = Vec::new();
                }
                current.push(op);
                if open {
                    assert(runs_fold(ops, i + 1) =~= prev.push(cur.push(ops[i as int])));
                } else {
                    assert(current@ =~= seq![ops[i as int]]);
                }
                open = true;
            },
        }
        i += 1;
    }
    if open {
        let ghost before = out@;
        out.push(current);
        assert(out@.map_values(|v: Vec<Operand<'a>>| v@) =~= before.map_values(
            |v: Vec<Operand<'a>>| v@,
        ).push(current@));
    }
    proof {
        lemma_runs_fold_len(ops, ops.len() as int);
    }
    out
}

/// Assemble one spending alternative into script bytes, given the compiled
/// script of each of its native runs, in order, and counting the encoded
/// bytes shared across alternatives within the encoding limit.
pub fn compile_alternative(
    operands: &[Operand<'_>],
    runs: &[Vec<u8>],
    encoded_bytes: &mut usize,
) -> (r: Result<Vec<u8>, CompilationError>)
    requires
        runs@.len() == run_count(operands@, operands@.len() as int),
    ensures
        match compile_alternative_spec(
            operands@,
            runs@.map_values(|v: Vec<u8>| v@),
            *old(encoded_bytes),
        ) {
            Err(e) => r == Err::<Vec<u8>, CompilationError>(e),
            Ok((b, n)) => r is Ok && r->Ok_0@ == b && *final(encoded_bytes) == n,
        },
{
    let ghost ops = operands@;
    let ghost rv = runs@.map_values(|v: Vec<u8>| v@);
    if operands.len() == 0 {
        let n = match encoded_size(*encoded_bytes, 1, false) {
            Ok(n) => n,
            Err(e) => return Err(e),
        };
        *encoded_bytes = n;
        let mut script: Vec<u8> = Vec::new();
        script.push(OP_TRUE);
        assert(script@ =~= seq![OP_TRUE]);
        return Ok(script);
    }
    let ghost st0 = Assembly {
        bytes: Seq::empty(),
        has_predicate: false,
        encoded: *encoded_bytes,
        pending: false,
        used: 0,
    };
    let mut bytes: Vec<u8> = Vec::new();
    let mut has_predicate = false;
    let mut pending = false;
    let mut used: usize = 0;
    let mut i: usize = 0;
    while i < operands.len()
        invariant
            i <= ops.len(),
            ops == operands@,
            rv == runs@.map_values(|v: Vec<u8>| v@),
            runs@.len() == run_count(ops, ops.len() as int),
            st0 == (Assembly {
                bytes: Seq::empty(),
                has_predicate: false,
                encoded: *old(encoded_bytes),
                pending: false,
                used: 0,
            }),
            assemble_fold(st0, ops, rv, i as int) == Ok::<Assembly, CompilationError>(
                Assembly {
                    bytes: bytes@,
                    has_predicate,
                    encoded: *encoded_bytes,
                    pending,
                    used: used as int,
                },
            ),
            used + (if pending {
                1int
            } else {
                0int
            }) == run_count(ops, i as int),
            pending == (i > 0 && !(ops[i - 1] is Script)),
        decreases ops.len() - i,
    {
        proof {
            lemma_run_count_grows(ops, i as int, ops.len() as int);
        }
        match operands[i] {
            Operand::Script(fragment) => {
                assert(ops[i as int] == Operand::Script(fragment));
                if pending {
                    assert(used < runs@.len());
                    assert(rv[used as int] == runs@[used as int]@);
                    match append_script(&mut bytes, &runs[used], &mut has_predicate, encoded_bytes) {
                        Ok(_) => {},
                        Err(e) => {
                            proof {
                                lemma_assemble_err_stays(st0, ops, rv, i + 1, ops.len() as int);
                            }
                            return Err(e);
                        },
                    }
                    pending = false;
                    used = used + 1;
                }
                match append_script(&mut bytes, fragment.as_slice(), &mut has_predicate, encoded_bytes) {
                    Ok(_) => {},
                    Err(e) => {
                        proof {
                            lemma_assemble_err_stays(st0, ops, rv, i + 1, ops.len() as int);
                        }
                        return Err(e);
                    },
                }
            },
            _ => {
                pending = true;
            },
        }
        i += 1;
    }
    if pending {
        assert(used < runs@.len());
        assert(rv[used as int] == runs@[used as int]@);
        match append_script(&mut bytes, &runs[used], &mut has_predicate, encoded_bytes) {
            Ok(_) => {},
            Err(e) => return Err(e),
        }
    }
    Ok(bytes)
}

proof fn lemma_run_count_grows<'a>(ops: Seq<Operand<'a>>, k: int, m: int)
    requires
        0 <= k <= m,
    ensures
        run_count(ops, k) <= run_count(ops, m),
    decreases m - k,
{
    if m > k {
        lemma_run_count_grows(ops, k, m - 1);
    }
}

proof fn lemma_assemble_err_stays<'a>(
    st: Assembly,
    ops: Seq<Operand<'a>>,
    runs: Seq<Seq<u8>>,
    k: int,
    m: int,
)
    requires
        0 <= k <= m <= ops.len(),
        assemble_fold(st, ops, runs, k) is Err,
    ensures
        assemble_fold(st, ops, runs, m) == assemble_fold(st, ops, runs, k),
    decreases m - k,
{
    if m > k {
        lemma_assemble_err_stays(st, ops, runs, k, m - 1);
    }
}

} // verus!
