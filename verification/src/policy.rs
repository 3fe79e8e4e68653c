//! The policy language contracts declare their spending conditions in.
use vstd::prelude::*;

verus! {

/// An ordinal inscription's envelope fields, as byte strings.
#[derive(Debug, Clone)]
pub struct Inscription {
    /// The inscribed content.
    pub body: Option<Vec<u8>>,
    /// Encoding of the content.
    pub content_encoding: Option<Vec<u8>>,
    /// Type of the content.
    pub content_type: Option<Vec<u8>>,
    /// Delegate inscription.
    pub delegate: Option<Vec<u8>>,
    /// Metadata.
    pub metadata: Option<Vec<u8>>,
    /// Metaprotocol.
    pub metaprotocol: Option<Vec<u8>>,
    /// Parent inscription.
    pub parent: Option<Vec<u8>>,
    /// Pointer.
    pub pointer: Option<Vec<u8>>,
}

impl Inscription {
    /// An inscription of a body with a content type.
    pub fn new(content_type: Option<Vec<u8>>, body: Option<Vec<u8>>) -> (r: Self)
        ensures
            r.content_type == content_type,
            r.body == body,
            r.content_encoding is None && r.delegate is None && r.metadata is None
                && r.metaprotocol is None && r.parent is None && r.pointer is None,
    {
        Inscription {
            body,
            content_encoding: None,
            content_type,
            delegate: None,
            metadata: None,
            metaprotocol: None,
            parent: None,
            pointer: None,
        }
    }
}

/// A spending policy.
#[derive(Debug)]
pub enum Clause {
    /// Never satisfiable.
    Unsatisfiable,
    /// Always satisfiable.
    Trivial,
    /// A signature by this x-only key.
    Key(Vec<u8>),
    /// A SHA-256 preimage.
    Sha256(Vec<u8>),
    /// A double SHA-256 preimage.
    Hash256(Vec<u8>),
    /// A RIPEMD-160 preimage.
    Ripemd160(Vec<u8>),
    /// A HASH160 preimage.
    Hash160(Vec<u8>),
    /// An absolute lock time.
    After(u32),
    /// A relative lock, as a sequence value.
    Older(u32),
    /// A commitment to this template hash.
    TxTemplate(Vec<u8>),
    /// All of these.
    And(Vec<Clause>),
    /// Any of these, each with a probability weight.
    Or(Vec<(usize, Clause)>),
    /// At least this many of these.
    Threshold(usize, Vec<Clause>),
    /// A policy carrying an inscription.
    Inscribe(Box<Inscription>, Box<Clause>),
}

} // verus!

verus! {

/// An emulated program instance: its program and its parameters.
#[derive(Debug, Clone)]
pub struct EmulatedProgram {
    /// The program bytes.
    pub program: Vec<u8>,
    /// The parameter bytes.
    pub parameters: Vec<u8>,
}

/// How covenant predicates are lowered to script.
#[derive(Debug, Clone)]
pub enum LoweringPlan {
    /// Native covenant opcodes.
    Native,
    /// Emulation by a threshold of signers, identified by their keys.
    CtvEmulation {
        /// The signers' keys.
        signers: Vec<Vec<u8>>,
        /// How many of them must sign.
        threshold: usize,
    },
}

/// A source policy: native policy clauses, raw script fragments, emulated
/// programs and covenant predicates that a lowering resolves, combined by
/// conjunction and choice.
#[derive(Debug)]
pub enum ScriptPolicy {
    /// An emulated program.
    Program(EmulatedProgram),
    /// A covenant predicate on this template hash, resolved by the lowering.
    Emulatable(Vec<u8>),
    /// A native policy.
    Miniscript(Clause),
    /// A raw script fragment.
    Script(Vec<u8>),
    /// All of these.
    And(Vec<ScriptPolicy>),
    /// Any of these.
    Or(Vec<ScriptPolicy>),
}

} // verus!
