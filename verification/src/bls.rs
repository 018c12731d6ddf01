//! Trusted boundary around the BLS12-381 pairing groups of `ic_bls12_381`.
//!
//! Group elements cross this boundary only in their canonical byte encodings:
//! 48 bytes for a compressed G1 point, 96 bytes for a compressed G2 point,
//! 32 bytes for a little-endian scalar, 576 bytes for a target-group element.
//! The results of the group operations are named by uninterpreted spec
//! functions; the wrappers state of those names what the curve library's
//! documentation gives, most importantly bilinearity and non-degeneracy of
//! the pairing.

use vstd::prelude::*;

use ic_bls12_381::hash_to_curve::ExpandMsgXmd;
use ic_bls12_381::hash_to_curve::HashToCurve;
use rand::RngCore;

verus! {

/// Compressed encoding of `[k]·G2` for the canonical scalar encoding `k`,
/// as computed by `ic_bls12_381`'s G2 scalar multiplication.
pub uninterp spec fn g2_mul_gen(k: Seq<u8>) -> Seq<u8>;

/// Compressed encoding of `[k]·P` where `p` is the compressed encoding of the
/// G1 point `P`, as computed by `ic_bls12_381`'s G1 scalar multiplication.
pub uninterp spec fn g1_mul(k: Seq<u8>, p: Seq<u8>) -> Seq<u8>;

/// Compressed encoding of the hash-to-curve image of `label` in G1 under the
/// fixed domain separation tag below.
pub uninterp spec fn hash_g1(label: Seq<u8>) -> Seq<u8>;

/// 576-byte serialization of the pairing `e(P, Q)` of the points with
/// compressed encodings `p` (in G1) and `q` (in G2).
pub uninterp spec fn gt_pair(p: Seq<u8>, q: Seq<u8>) -> Seq<u8>;

/// 576-byte serialization of `e(P, Q)^k`, the pairing of the points with
/// compressed encodings `p` and `q` raised to the scalar with canonical
/// encoding `k`, as computed by `Gt`'s scalar multiplication.
pub uninterp spec fn gt_exp(p: Seq<u8>, q: Seq<u8>, k: Seq<u8>) -> Seq<u8>;

/// Whether `G1Affine::from_compressed` accepts `b`.
pub uninterp spec fn g1_ok(b: Seq<u8>) -> bool;

/// Whether `G2Affine::from_compressed` accepts `b`.
pub uninterp spec fn g2_ok(b: Seq<u8>) -> bool;

/// The little-endian bytes of the order of the scalar field,
/// `0x73eda753299d7d483339d80809a1d80553bda402fffe5bfeffffffff00000001`.
pub open spec fn scalar_modulus_bytes() -> Seq<u8> {
    seq![
        0x01u8, 0x00, 0x00, 0x00, 0xff, 0xff, 0xff, 0xff,
        0xfe, 0x5b, 0xfe, 0xff, 0x02, 0xa4, 0xbd, 0x53,
        0x05, 0xd8, 0xa1, 0x09, 0x08, 0xd8, 0x39, 0x33,
        0x48, 0x7d, 0x9d, 0x29, 0x53, 0xa7, 0xed, 0x73,
    ]
}

/// Whether the first `n` bytes of `a`, read as a little-endian integer, are
/// less than those of `b`.
pub open spec fn le_bytes_lt(a: Seq<u8>, b: Seq<u8>, n: nat) -> bool
    decreases n,
{
    if n == 0 {
        false
    } else {
        a[n - 1] < b[n - 1] || (a[n - 1] == b[n - 1] && le_bytes_lt(a, b, (n - 1) as nat))
    }
}

/// Whether `Scalar::from_bytes` accepts `b`: exactly the canonical
/// little-endian encodings, the 32-byte values below the field order.
pub open spec fn scalar_ok(b: Seq<u8>) -> bool {
    b.len() == 32 && le_bytes_lt(b, scalar_modulus_bytes(), 32)
}

/// The canonical encoding of the zero scalar: 32 zero bytes.
pub open spec fn zero_scalar() -> Seq<u8> {
    Seq::new(32, |i: int| 0u8)
}

/// Relies on `Scalar::from_bytes_wide` (uniform reduction of 64 random bytes
/// into the field) and `Scalar::to_bytes`, whose result is always canonical.
#[verifier::external_body]
pub(crate) fn sample_scalar() -> (r: [u8; 32])
    ensures
        scalar_ok(r@),
{
    let mut wide = [0u8; 64];
    rand::rngs::OsRng.fill_bytes(&mut wide);
    ic_bls12_381::Scalar::from_bytes_wide(&wide).to_bytes()
}

/// Relies on `Scalar::from_bytes`: it accepts exactly the canonical encodings,
/// and round-trips with `Scalar::to_bytes`.
#[verifier::external_body]
pub(crate) fn scalar_is_canonical(b: &[u8; 32]) -> (r: bool)
    ensures
        r == scalar_ok(b@),
{
    bool::from(ic_bls12_381::Scalar::from_bytes(b).is_some())
}

/// Relies on `G1Affine::from_compressed` accepting exactly the compressed
/// encodings of G1 points.
#[verifier::external_body]
pub(crate) fn g1_is_valid(b: &[u8; 48]) -> (r: bool)
    ensures
        r == g1_ok(b@),
{
    bool::from(ic_bls12_381::G1Affine::from_compressed(b).is_some())
}

/// Relies on `G2Affine::from_compressed` accepting exactly the compressed
/// encodings of G2 points.
#[verifier::external_body]
pub(crate) fn g2_is_valid(b: &[u8; 96]) -> (r: bool)
    ensures
        r == g2_ok(b@),
{
    bool::from(ic_bls12_381::G2Affine::from_compressed(b).is_some())
}

/// Relies on G2 scalar multiplication and on `to_compressed`/`from_compressed`
/// round-tripping, so the result is again a valid compressed encoding.
#[verifier::external_body]
pub(crate) fn g2_mul_generator(k: &[u8; 32]) -> (r: [u8; 96])
    requires
        scalar_ok(k@),
    ensures
        r@ == g2_mul_gen(k@),
        g2_ok(r@),
{
    let s = ic_bls12_381::Scalar::from_bytes(k).unwrap();
    let p = ic_bls12_381::G2Affine::generator() * s;
    ic_bls12_381::G2Affine::from(p).to_compressed()
}

/// Relies on G1 scalar multiplication and on `to_compressed`/`from_compressed`
/// round-tripping, so the result is again a valid compressed encoding.
#[verifier::external_body]
pub(crate) fn g1_mul_point(k: &[u8; 32], p: &[u8; 48]) -> (r: [u8; 48])
    requires
        scalar_ok(k@),
        g1_ok(p@),
    ensures
        r@ == g1_mul(k@, p@),
        g1_ok(r@),
{
    let s = ic_bls12_381::Scalar::from_bytes(k).unwrap();
    let a = ic_bls12_381::G1Affine::from_compressed(p).unwrap();
    ic_bls12_381::G1Affine::from(a * s).to_compressed()
}

/// Relies on `hash_to_curve` with the `ExpandMsgXmd<Sha256>` expander: a
/// deterministic, total map from byte labels to G1, returned compressed.
#[verifier::external_body]
pub(crate) fn hash_to_g1_point(label: &[u8]) -> (r: [u8; 48])
    ensures
        r@ == hash_g1(label@),
        g1_ok(r@),
{
    let g: ic_bls12_381::G1Projective = HashToCurve::<ExpandMsgXmd<sha2::Sha256>>::hash_to_curve(
        label,
        b"BLS_SIG_BLS12381G1_XMD:SHA-256_SSWU_RO_NUL_",
    );
    ic_bls12_381::G1Affine::from(g).to_compressed()
}

/// Relies on `ic_bls12_381::pairing` and `Gt::to_bytes`, a unique
/// serialization of the target group element.
#[verifier::external_body]
pub(crate) fn pair_points(p: &[u8; 48], q: &[u8; 96]) -> (r: [u8; 576])
    requires
        g1_ok(p@),
        g2_ok(q@),
    ensures
        r@ == gt_pair(p@, q@),
{
    let a = ic_bls12_381::G1Affine::from_compressed(p).unwrap();
    let b = ic_bls12_381::G2Affine::from_compressed(q).unwrap();
    ic_bls12_381::pairing(&a, &b).to_bytes()
}

/// Relies on `ic_bls12_381::pairing` followed by `Gt` scalar multiplication:
/// the result is the serialization of `e(P, Q)^k`. The second clause is the
/// bilinearity of the pairing: for `q = [c]·G2`,
/// `e(P, [c]·G2)^k = e(P, G2)^(c·k) = e([c]·P, [k]·G2)`.
#[verifier::external_body]
pub(crate) fn gt_exp_pair(p: &[u8; 48], q: &[u8; 96], k: &[u8; 32]) -> (r: [u8; 576])
    requires
        g1_ok(p@),
        g2_ok(q@),
        scalar_ok(k@),
    ensures
        r@ == gt_exp(p@, q@, k@),
        forall|c: Seq<u8>|
            scalar_ok(c) && q@ == g2_mul_gen(c) ==> r@ == gt_pair(g1_mul(c, p@), g2_mul_gen(k@)),
{
    let a = ic_bls12_381::G1Affine::from_compressed(p).unwrap();
    let b = ic_bls12_381::G2Affine::from_compressed(q).unwrap();
    let s = ic_bls12_381::Scalar::from_bytes(k).unwrap();
    (ic_bls12_381::pairing(&a, &b) * s).to_bytes()
}

/// Relies on `multi_miller_loop` with a final exponentiation to decide
/// `e(H, mpk) == e(dk, G2)`; by bilinearity and non-degeneracy of the pairing,
/// for `mpk = [k]·G2` that equation holds exactly when `dk = [k]·H`.
#[verifier::external_body]
pub(crate) fn pairing_check(h: &[u8; 48], mpk: &[u8; 96], dk: &[u8; 48]) -> (r: bool)
    requires
        g1_ok(h@),
        g2_ok(mpk@),
        g1_ok(dk@),
    ensures
        forall|k: Seq<u8>|
            scalar_ok(k) && mpk@ == g2_mul_gen(k) ==> (r <==> dk@ == g1_mul(k, h@)),
{
    let hp = ic_bls12_381::G1Affine::from_compressed(h).unwrap();
    let q = ic_bls12_381::G2Affine::from_compressed(mpk).unwrap();
    let sig = ic_bls12_381::G1Affine::from_compressed(dk).unwrap();
    let minus_h = -hp;
    let pair1 = (&minus_h, &ic_bls12_381::G2Prepared::from(q));
    let gen = ic_bls12_381::G2Affine::generator();
    let pair2 = (&sig, &ic_bls12_381::G2Prepared::from(gen));
    let looped = ic_bls12_381::multi_miller_loop(&[pair1, pair2]);
    looped.final_exponentiation() == ic_bls12_381::Gt::identity()
}

} // verus!
