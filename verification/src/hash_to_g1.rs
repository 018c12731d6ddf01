//! Deterministic map from byte labels to G1 under the fixed domain
//! separation tag `BLS_SIG_BLS12381G1_XMD:SHA-256_SSWU_RO_NUL_`.

use vstd::prelude::*;

use crate::bls::g1_ok;
use crate::bls::hash_g1;
use crate::bls::hash_to_g1_point;

verus! {

/// Hash a label to a point of G1, returned in its 48-byte compressed
/// encoding. Deterministic and total.
pub fn hash_to_g1(label: &[u8]) -> (r: [u8; 48])
    ensures
        r@ == hash_g1(label@),
        g1_ok(r@),
{
    hash_to_g1_point(label)
}

} // verus!
