//! Transaction size and fee arithmetic delegated to the `bitcoin` crate.
use vstd::prelude::*;

verus! {

/// Bytes of a CompactSize length prefix for `n`.
pub open spec fn varint_len(n: u64) -> u64 {
    if n <= 0xfc {
        1
    } else if n <= 0xffff {
        3
    } else if n <= 0xffff_ffff {
        5
    } else {
        9
    }
}

/// Calls `bitcoin::VarInt::size`, which the crate documents as 1 for
/// `0..=0xFC`, 3 up to `2^16 - 1`, 5 up to `2^32 - 1` and 9 otherwise.
#[verifier::external_body]
pub(crate) fn varint_size(n: u64) -> (r: u64)
    ensures
        r == varint_len(n),
{
    bitcoin::VarInt(n).size() as u64
}

/// The fee, rounded up, of `weight_wu` weight units at `rate_sat_kwu`
/// satoshis per thousand weight units, when the product does not overflow.
pub open spec fn fee_for_weight_spec(rate_sat_kwu: u64, weight_wu: u64) -> Option<u64> {
    if rate_sat_kwu * weight_wu + 999 > u64::MAX {
        None
    } else {
        Some(((rate_sat_kwu * weight_wu + 999) / 1000) as u64)
    }
}

/// Calls `bitcoin::FeeRate::fee_wu`. Its source multiplies the rate by the
/// weight and adds 999 with checked arithmetic, returning `None` on overflow,
/// and divides by 1000 otherwise.
#[verifier::external_body]
pub(crate) fn fee_for_weight(rate_sat_kwu: u64, weight_wu: u64) -> (r: Option<u64>)
    ensures
        r == fee_for_weight_spec(rate_sat_kwu, weight_wu),
{
    match bitcoin::FeeRate::from_sat_per_kwu(rate_sat_kwu).fee_wu(
        bitcoin::Weight::from_wu(weight_wu),
    ) {
        Some(fee) => Some(fee.to_sat()),
        None => None,
    }
}

} // verus!
