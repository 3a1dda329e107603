//! The ways in which a fold run can be refused.

use vstd::prelude::*;

verus! {

/// Why a fold, a commitment or a whole run was refused.
///
/// Every error describes malformed input: none is transient, and no partial
/// result accompanies it.
#[derive(Clone, Copy, Debug, PartialEq, Eq, Structural)]
pub enum FriError {
    /// The domain's length is zero, is not a power of two, or is too short
    /// to be halved once for every fold that the polynomial needs.
    InvalidDomain,
    /// A Merkle commitment was asked for over zero evaluations.
    EmptyCommitmentInput,
    /// A power, a product or a sum left the range of `i128`.
    ArithmeticOverflow,
    /// The fold coefficients run out before the polynomial is constant.
    NonConstantTerminal,
}

} // verus!
