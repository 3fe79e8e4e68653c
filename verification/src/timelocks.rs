//! Typed relative and absolute lock requirements.
use vstd::prelude::*;

verus! {

/// BIP 68 flag selecting time-based relative locks.
pub const SEQUENCE_TYPE_FLAG: u32 = 0x0040_0000;

/// A relative lock: a number of blocks or of 512-second intervals.
#[derive(Debug, Clone, Copy, PartialEq, Eq, Structural)]
pub enum AnyRelTimeLock {
    /// Relative height, in blocks.
    RH(u16),
    /// Relative time, in 512-second units.
    RT(u16),
}

/// An absolute lock: a block height or a UNIX time.
#[derive(Debug, Clone, Copy, PartialEq, Eq, Structural)]
pub enum AnyAbsTimeLock {
    /// Absolute block height.
    AH(u32),
    /// Absolute UNIX time.
    AT(u32),
}

/// The encoded sequence value of a relative lock.
pub open spec fn rel_encoding(l: AnyRelTimeLock) -> u32 {
    match l {
        AnyRelTimeLock::RH(h) => h as u32,
        AnyRelTimeLock::RT(t) => (SEQUENCE_TYPE_FLAG + t) as u32,
    }
}

/// Two relative locks measure the same domain.
pub open spec fn same_rel_domain(a: AnyRelTimeLock, b: AnyRelTimeLock) -> bool {
    (a is RH && b is RH) || (a is RT && b is RT)
}

/// The stronger of two relative locks of the same domain.
pub open spec fn rel_max(a: AnyRelTimeLock, b: AnyRelTimeLock) -> AnyRelTimeLock {
    match (a, b) {
        (AnyRelTimeLock::RH(x), AnyRelTimeLock::RH(y)) => AnyRelTimeLock::RH(
            if x < y {
                y
            } else {
                x
            },
        ),
        (AnyRelTimeLock::RT(x), AnyRelTimeLock::RT(y)) => AnyRelTimeLock::RT(
            if x < y {
                y
            } else {
                x
            },
        ),
        _ => a,
    }
}

/// The encoded lock-time value of an absolute lock.
pub open spec fn abs_encoding(l: AnyAbsTimeLock) -> u32 {
    match l {
        AnyAbsTimeLock::AH(h) => h,
        AnyAbsTimeLock::AT(t) => t,
    }
}

/// Two absolute locks measure the same domain.
pub open spec fn same_abs_domain(a: AnyAbsTimeLock, b: AnyAbsTimeLock) -> bool {
    (a is AH && b is AH) || (a is AT && b is AT)
}

/// The stronger of two absolute locks of the same domain.
pub open spec fn abs_max(a: AnyAbsTimeLock, b: AnyAbsTimeLock) -> AnyAbsTimeLock {
    match (a, b) {
        (AnyAbsTimeLock::AH(x), AnyAbsTimeLock::AH(y)) => AnyAbsTimeLock::AH(
            if x < y {
                y
            } else {
                x
            },
        ),
        (AnyAbsTimeLock::AT(x), AnyAbsTimeLock::AT(y)) => AnyAbsTimeLock::AT(
            if x < y {
                y
            } else {
                x
            },
        ),
        _ => a,
    }
}

impl AnyRelTimeLock {
    /// The encoded sequence value.
    pub fn get(&self) -> (r: u32)
        ensures
            r == rel_encoding(*self),
    {
        match self {
            AnyRelTimeLock::RH(h) => *h as u32,
            AnyRelTimeLock::RT(t) => SEQUENCE_TYPE_FLAG + *t as u32,
        }
    }

    /// Merge with a lock of the same domain, keeping the stronger one;
    /// `None` when the domains differ.
    pub fn merge(&self, other: &AnyRelTimeLock) -> (r: Option<AnyRelTimeLock>)
        ensures
            r == (if same_rel_domain(*self, *other) {
                Some(rel_max(*self, *other))
            } else {
                None
            }),
    {
        match (self, other) {
            (AnyRelTimeLock::RH(x), AnyRelTimeLock::RH(y)) => Some(
                AnyRelTimeLock::RH(
                    if *x < *y {
                        *y
                    } else {
                        *x
                    },
                ),
            ),
            (AnyRelTimeLock::RT(x), AnyRelTimeLock::RT(y)) => Some(
                AnyRelTimeLock::RT(
                    if *x < *y {
                        *y
                    } else {
                        *x
                    },
                ),
            ),
            _ => None,
        }
    }
}

impl AnyAbsTimeLock {
    /// The encoded lock-time value.
    pub fn get(&self) -> (r: u32)
        ensures
            r == abs_encoding(*self),
    {
        match self {
            AnyAbsTimeLock::AH(h) => *h,
            AnyAbsTimeLock::AT(t) => *t,
        }
    }

    /// Merge with a lock of the same domain, keeping the stronger one;
    /// `None` when the domains differ.
    pub fn merge(&self, other: &AnyAbsTimeLock) -> (r: Option<AnyAbsTimeLock>)
        ensures
            r == (if same_abs_domain(*self, *other) {
                Some(abs_max(*self, *other))
            } else {
                None
            }),
    {
        match (self, other) {
            (AnyAbsTimeLock::AH(x), AnyAbsTimeLock::AH(y)) => Some(
                AnyAbsTimeLock::AH(
                    if *x < *y {
                        *y
                    } else {
                        *x
                    },
                ),
            ),
            (AnyAbsTimeLock::AT(x), AnyAbsTimeLock::AT(y)) => Some(
                AnyAbsTimeLock::AT(
                    if *x < *y {
                        *y
                    } else {
                        *x
                    },
                ),
            ),
            _ => None,
        }
    }
}

/// Merging locks of one domain is commutative, idempotent and never weakens
/// either requirement.
pub proof fn lemma_rel_merge_laws(a: AnyRelTimeLock, b: AnyRelTimeLock)
    requires
        same_rel_domain(a, b),
    ensures
        rel_max(a, b) == rel_max(b, a),
        rel_max(a, a) == a,
        same_rel_domain(rel_max(a, b), a),
        rel_encoding(a) <= rel_encoding(rel_max(a, b)),
        rel_encoding(b) <= rel_encoding(rel_max(a, b)),
{
}

/// Merging absolute locks of one domain is commutative, idempotent and never
/// weakens either requirement.
pub proof fn lemma_abs_merge_laws(a: AnyAbsTimeLock, b: AnyAbsTimeLock)
    requires
        same_abs_domain(a, b),
    ensures
        abs_max(a, b) == abs_max(b, a),
        abs_max(a, a) == a,
        same_abs_domain(abs_max(a, b), a),
        abs_encoding(a) <= abs_encoding(abs_max(a, b)),
        abs_encoding(b) <= abs_encoding(abs_max(a, b)),
{
}

} // verus!
