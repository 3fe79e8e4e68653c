//! Data-carrying outputs: scripts that begin with `OP_RETURN`.
use vstd::prelude::*;
use crate::template::copy_bytes;

verus! {

/// The opcode that marks an output unspendable.
pub const OP_RETURN: u8 = 0x6a;

/// Most bytes an `OP_RETURN` output may carry.
pub const MAX_OP_RETURN_BYTES: usize = 40;

/// Why an output could not be made.
#[derive(Debug, Clone, Copy, PartialEq, Eq, Structural)]
pub enum ObjectError {
    /// The data does not fit in an `OP_RETURN` output.
    OpReturnTooLong,
}

/// The script of an `OP_RETURN` output: a byte string that begins with
/// `OP_RETURN`.
#[derive(Debug, Clone)]
pub struct OpReturn(pub Vec<u8>);

/// `bitcoin::ScriptBuf::new_op_return` on data of at most 75 bytes: the
/// `OP_RETURN` opcode, then the data pushed by its length as a direct push
/// opcode, then the data.
#[verifier::external_body]
fn new_op_return(data: &[u8]) -> (r: Vec<u8>)
    requires
        data@.len() <= 75,
    ensures
        r@ == seq![OP_RETURN, data@.len() as u8] + data@,
{
    match <&bitcoin::script::PushBytes>::try_from(data) {
        Ok(push) => bitcoin::ScriptBuf::new_op_return(push).into_bytes(),
        Err(_) => Vec::new(),
    }
}

/// Where an output pays to. Each destination is held by the output script
/// it pays to; the script is network-independent.
#[derive(Debug, Clone)]
pub enum ExtendedAddress {
    /// A parsed address, by its output script.
    Address(Vec<u8>),
    /// A descriptor, by the output script it describes.
    Descriptor(Vec<u8>),
    /// An `OP_RETURN` output.
    OpReturn(OpReturn),
    /// Any other script.
    Unknown(Vec<u8>),
}

impl ExtendedAddress {
    /// Create an `OP_RETURN` destination carrying this data, of at most
    /// forty bytes.
    pub fn make_op_return(data: &[u8]) -> (r: Result<ExtendedAddress, ObjectError>)
        ensures
            data@.len() > MAX_OP_RETURN_BYTES ==> r == Err::<ExtendedAddress, ObjectError>(
                ObjectError::OpReturnTooLong,
            ),
            data@.len() <= MAX_OP_RETURN_BYTES ==> (r matches Ok(ExtendedAddress::OpReturn(o))
                && o.0@ == seq![OP_RETURN, data@.len() as u8] + data@),
    {
        if data.len() > MAX_OP_RETURN_BYTES {
            return Err(ObjectError::OpReturnTooLong);
        }
        Ok(ExtendedAddress::OpReturn(OpReturn(new_op_return(data))))
    }

    /// The output script this destination pays to.
    pub fn script_pubkey(&self) -> (r: Vec<u8>)
        ensures
            r@ == match self {
                ExtendedAddress::Address(s) => s@,
                ExtendedAddress::Descriptor(s) => s@,
                ExtendedAddress::OpReturn(o) => o.0@,
                ExtendedAddress::Unknown(s) => s@,
            },
    {
        match self {
            ExtendedAddress::Address(s) => copy_bytes(s),
            ExtendedAddress::Descriptor(s) => copy_bytes(s),
            ExtendedAddress::OpReturn(o) => copy_bytes(&o.0),
            ExtendedAddress::Unknown(s) => copy_bytes(s),
        }
    }
}

impl OpReturn {

    /// Accept a script as an `OP_RETURN` output when its first byte is
    /// `OP_RETURN`.
    pub fn try_from_script(script: Vec<u8>) -> (r: Result<OpReturn, &'static str>)
        ensures
            r is Ok <==> (script@.len() > 0 && script@[0] == OP_RETURN),
            r matches Ok(o) ==> o.0@ == script@,
            r matches Err(e) ==> e@ == "Not an Op Return"@,
    {
        if script.len() > 0 && script[0] == OP_RETURN {
            Ok(OpReturn(script))
        } else {
            Err("Not an Op Return")
        }
    }
}

} // verus!
