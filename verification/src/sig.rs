//! Support types for the offline signature-feature model. The model
//! itself is floating-point numerics and lives outside the verified
//! core; what belongs here is the feature-dimension arithmetic and
//! the error type.

use vstd::prelude::*;

verus! {

/// Errors of the signature-feature model.
#[derive(Clone, Debug)]
pub enum SigError {
    /// The input was malformed (wrong truncation level, empty
    /// trajectory, dimension mismatch).
    BadInput(String),
    /// The linear solve failed.
    LinAlg(String),
}

/// The length of a truncated signature feature vector for
/// `d`-dimensional observations: `d` first-level terms, `d * d`
/// second-level terms and `d * d * d` third-level terms, as far as
/// the truncation level reaches.
pub open spec fn spec_feature_dim(d: nat, trunc: nat) -> nat {
    (if trunc >= 1 {
        d
    } else {
        0
    }) + (if trunc >= 2 {
        d * d
    } else {
        0
    }) + (if trunc >= 3 {
        d * d * d
    } else {
        0
    })
}

/// The feature dimension for `d`-dimensional observations at the
/// given truncation level.
pub fn compute_feature_dim(d: usize, trunc: usize) -> (r: usize)
    requires
        spec_feature_dim(d as nat, trunc as nat) <= usize::MAX,
    ensures
        r as nat == spec_feature_dim(d as nat, trunc as nat),
{
    proof {
        assert(0 <= (d as nat) * (d as nat)) by (nonlinear_arith);
        assert(0 <= (d as nat) * (d as nat) * (d as nat)) by (nonlinear_arith);
    }
    let mut dim: usize = 0;
    if trunc >= 1 {
        dim = dim + d;
    }
    if trunc >= 2 {
        dim = dim + d * d;
    }
    if trunc >= 3 {
        dim = dim + d * d * d;
    }
    dim
}

} // verus!
