//! Label-keyed encapsulation on the BLS12-381 pairing: master key
//! generation, per-encryption shares, authority reveal, recipient recovery,
//! and public verifiability of revealed keys.
//!
//! Every key type stores the canonical byte encoding of its group element and
//! guards its validity with a type invariant, so the operations below have no
//! preconditions and cannot panic.

use vstd::prelude::*;

use crate::bls::g1_mul;
use crate::bls::g1_mul_point;
use crate::bls::g1_is_valid;
use crate::bls::g1_ok;
use crate::bls::g2_is_valid;
use crate::bls::g2_mul_gen;
use crate::bls::g2_mul_generator;
use crate::bls::g2_ok;
use crate::bls::gt_exp;
use crate::bls::gt_exp_pair;
use crate::bls::gt_pair;
use crate::bls::hash_g1;
use crate::bls::hash_to_g1_point;
use crate::bls::pair_points;
use crate::bls::pairing_check;
use crate::bls::sample_scalar;
use crate::bls::scalar_is_canonical;
use crate::bls::scalar_ok;
use crate::bls::zero_scalar;

verus! {

/// `(mpk, msk)` is a master key pair as produced by `generate`: `msk` is a
/// canonical nonzero scalar and `mpk = [msk]·G2`.
pub open spec fn is_keypair(mpk: Seq<u8>, msk: Seq<u8>) -> bool {
    &&& scalar_ok(msk)
    &&& msk != zero_scalar()
    &&& mpk == g2_mul_gen(msk)
    &&& g2_ok(mpk)
}

/// The decryption key for `label` under `msk`: the compressed encoding of
/// `[msk]·H(label)`.
pub open spec fn reveal_spec(label: Seq<u8>, msk: Seq<u8>) -> Seq<u8> {
    g1_mul(msk, hash_g1(label))
}

/// `(u, s)` is an honest share for `label` against `mpk`: for the master
/// secret behind `mpk`, pairing the label's decryption key with `u` yields
/// exactly `s`.
pub open spec fn is_share(label: Seq<u8>, mpk: Seq<u8>, u: Seq<u8>, s: Seq<u8>) -> bool {
    &&& g2_ok(u)
    &&& forall|k: Seq<u8>|
        scalar_ok(k) && mpk == #[trigger] g2_mul_gen(k) ==> s == gt_pair(
            g1_mul(k, hash_g1(label)),
            u,
        )
}

/// A master public key: a point in G2, stored compressed.
#[derive(Clone, Copy, Debug)]
pub struct MasterPublicKey {
    bytes: [u8; 96],
}

impl View for MasterPublicKey {
    type V = Seq<u8>;

    closed spec fn view(&self) -> Seq<u8> {
        self.bytes@
    }
}

impl MasterPublicKey {
    #[verifier::type_invariant]
    spec fn wf(self) -> bool {
        g2_ok(self.bytes@)
    }

    /// The canonical 96-byte compressed encoding.
    pub fn to_bytes(&self) -> (r: [u8; 96])
        ensures
            r@ == self@,
    {
        self.bytes
    }

    /// Accepts exactly the compressed encodings of G2 points.
    pub fn from_bytes(bytes: [u8; 96]) -> (r: Option<Self>)
        ensures
            g2_ok(bytes@) ==> (r matches Some(k) && k@ == bytes@),
            !g2_ok(bytes@) ==> r is None,
    {
        if g2_is_valid(&bytes) {
            Some(MasterPublicKey { bytes })
        } else {
            None
        }
    }
}

/// A master private key: a nonzero scalar, stored in its canonical
/// little-endian encoding. Held by the authority only.
#[derive(Debug)]
pub struct MasterPrivateKey {
    bytes: [u8; 32],
}

impl View for MasterPrivateKey {
    type V = Seq<u8>;

    closed spec fn view(&self) -> Seq<u8> {
        self.bytes@
    }
}

impl MasterPrivateKey {
    #[verifier::type_invariant]
    spec fn wf(self) -> bool {
        scalar_ok(self.bytes@)
    }

    /// The canonical 32-byte little-endian encoding.
    pub fn to_bytes(&self) -> (r: [u8; 32])
        ensures
            r@ == self@,
    {
        self.bytes
    }

    /// Accepts exactly the canonical scalar encodings.
    pub fn from_bytes(bytes: [u8; 32]) -> (r: Option<Self>)
        ensures
            scalar_ok(bytes@) ==> (r matches Some(k) && k@ == bytes@),
            !scalar_ok(bytes@) ==> r is None,
    {
        if scalar_is_canonical(&bytes) {
            Some(MasterPrivateKey { bytes })
        } else {
            None
        }
    }
}

/// An ephemeral public key: a fresh point in G2 attached to one encryption,
/// stored compressed.
#[derive(Clone, Copy, Debug)]
pub struct EphemeralPublicKey {
    bytes: [u8; 96],
}

impl View for EphemeralPublicKey {
    type V = Seq<u8>;

    closed spec fn view(&self) -> Seq<u8> {
        self.bytes@
    }
}

impl EphemeralPublicKey {
    #[verifier::type_invariant]
    spec fn wf(self) -> bool {
        g2_ok(self.bytes@)
    }

    /// The canonical 96-byte compressed encoding.
    pub fn to_bytes(&self) -> (r: [u8; 96])
        ensures
            r@ == self@,
    {
        self.bytes
    }

    /// Accepts exactly the compressed encodings of G2 points.
    pub fn from_bytes(bytes: [u8; 96]) -> (r: Option<Self>)
        ensures
            g2_ok(bytes@) ==> (r matches Some(k) && k@ == bytes@),
            !g2_ok(bytes@) ==> r is None,
    {
        if g2_is_valid(&bytes) {
            Some(EphemeralPublicKey { bytes })
        } else {
            None
        }
    }
}

/// A shared secret: an element of the target group, stored in its unique
/// 576-byte serialization. Strictly local to one encryption or decryption.
#[derive(Debug)]
pub struct SharedSecret {
    bytes: [u8; 576],
}

impl View for SharedSecret {
    type V = Seq<u8>;

    closed spec fn view(&self) -> Seq<u8> {
        self.bytes@
    }
}

impl SharedSecret {
    /// The unique 576-byte serialization of the target group element.
    pub fn to_bytes(&self) -> (r: [u8; 576])
        ensures
            r@ == self@,
    {
        self.bytes
    }
}

impl PartialEq for SharedSecret {
    fn eq(&self, other: &Self) -> (r: bool)
    {
        bytes_eq(self.bytes.as_slice(), other.bytes.as_slice())
    }
}

impl Eq for SharedSecret {

}

impl vstd::std_specs::cmp::PartialEqSpecImpl for SharedSecret {
    open spec fn obeys_eq_spec() -> bool {
        true
    }

    open spec fn eq_spec(&self, other: &Self) -> bool {
        self@ == other@
    }
}

/// A per-label decryption key: a point in G1, stored compressed. Published by
/// the authority once the label may be opened.
#[derive(Clone, Copy, Debug)]
pub struct DecryptionKey {
    bytes: [u8; 48],
}

impl View for DecryptionKey {
    type V = Seq<u8>;

    closed spec fn view(&self) -> Seq<u8> {
        self.bytes@
    }
}

impl DecryptionKey {
    #[verifier::type_invariant]
    spec fn wf(self) -> bool {
        g1_ok(self.bytes@)
    }

    /// The canonical 48-byte compressed encoding.
    pub fn to_bytes(&self) -> (r: [u8; 48])
        ensures
            r@ == self@,
    {
        self.bytes
    }

    /// Accepts exactly the compressed encodings of G1 points.
    pub fn from_bytes(bytes: [u8; 48]) -> (r: Option<Self>)
        ensures
            g1_ok(bytes@) ==> (r matches Some(k) && k@ == bytes@),
            !g1_ok(bytes@) ==> r is None,
    {
        if g1_is_valid(&bytes) {
            Some(DecryptionKey { bytes })
        } else {
            None
        }
    }
}

impl PartialEq for DecryptionKey {
    fn eq(&self, other: &Self) -> (r: bool)
    {
        bytes_eq(self.bytes.as_slice(), other.bytes.as_slice())
    }
}

impl Eq for DecryptionKey {

}

impl vstd::std_specs::cmp::PartialEqSpecImpl for DecryptionKey {
    open spec fn obeys_eq_spec() -> bool {
        true
    }

    open spec fn eq_spec(&self, other: &Self) -> bool {
        self@ == other@
    }
}

impl PartialEq for EphemeralPublicKey {
    fn eq(&self, other: &Self) -> (r: bool)
    {
        bytes_eq(self.bytes.as_slice(), other.bytes.as_slice())
    }
}

impl Eq for EphemeralPublicKey {

}

impl vstd::std_specs::cmp::PartialEqSpecImpl for EphemeralPublicKey {
    open spec fn obeys_eq_spec() -> bool {
        true
    }

    open spec fn eq_spec(&self, other: &Self) -> bool {
        self@ == other@
    }
}

/// Byte-for-byte equality of two slices.
pub fn bytes_eq(a: &[u8], b: &[u8]) -> (r: bool)
    ensures
        r <==> a@ == b@,
{
    if a.len() != b.len() {
        proof {
            assert(a@.len() != b@.len());
        }
        return false;
    }
    let n: usize = a.len();
    let mut i: usize = 0;
    while i < n
        invariant
            i <= n,
            n == a@.len(),
            n == b@.len(),
            forall|j: int| 0 <= j < i ==> a@[j] == b@[j],
        decreases n - i,
    {
        if a[i] != b[i] {
            return false;
        }
        i = i + 1;
    }
    proof {
        assert(a@ =~= b@);
    }
    true
}

/// A fresh uniformly random nonzero canonical scalar. A zero draw is rejected
/// and redrawn once; should the randomness source return zero twice (an event
/// of probability about 2^-510), the scalar one is used instead.
fn sample_nonzero_scalar() -> (r: [u8; 32])
    ensures
        scalar_ok(r@),
        r@ != zero_scalar(),
{
    let k = sample_scalar();
    if !bytes32_is_zero(&k) {
        return k;
    }
    let k = sample_scalar();
    if !bytes32_is_zero(&k) {
        return k;
    }
    let one: [u8; 32] = [
        1u8, 0, 0, 0, 0, 0, 0, 0, 0, 0, 0, 0, 0, 0, 0, 0, 0, 0, 0, 0, 0, 0, 0, 0, 0, 0, 0, 0, 0,
        0, 0, 0,
    ];
    proof {
        assert(scalar_ok(one@));
        assert(one@[0] != zero_scalar()[0]);
    }
    one
}

/// Whether all 32 bytes are zero.
fn bytes32_is_zero(b: &[u8; 32]) -> (r: bool)
    ensures
        r <==> b@ == zero_scalar(),
{
    let mut i: usize = 0;
    while i < 32
        invariant
            i <= 32,
            forall|j: int| 0 <= j < i ==> b@[j] == 0u8,
        decreases 32 - i,
    {
        if b[i] != 0 {
            proof {
                assert(b@[i as int] != zero_scalar()[i as int]);
            }
            return false;
        }
        i = i + 1;
    }
    proof {
        assert(b@ =~= zero_scalar());
    }
    true
}

/// Sample a fresh master key pair: a uniformly random nonzero scalar `msk`
/// and `mpk = [msk]·G2`.
pub fn generate() -> (r: (MasterPublicKey, MasterPrivateKey))
    ensures
        is_keypair(r.0@, r.1@),
{
    let sk = sample_nonzero_scalar();
    let pk = g2_mul_generator(&sk);
    (MasterPublicKey { bytes: pk }, MasterPrivateKey { bytes: sk })
}

/// Produce a fresh share for `label` against `mpk`: an ephemeral public key
/// `u = [r]·G2` and the shared secret `s = e(H(label), mpk)^r` for a fresh
/// nonzero scalar `r`. A zero draw of `r` is rejected.
pub fn share(label: &[u8], mpk: &MasterPublicKey) -> (r: (EphemeralPublicKey, SharedSecret))
    ensures
        is_share(label@, mpk@, r.0@, r.1@),
        exists|w: Seq<u8>|
            scalar_ok(w) && w != zero_scalar() && r.0@ == #[trigger] g2_mul_gen(w) && r.1@
                == gt_exp(hash_g1(label@), mpk@, w),
{
    proof {
        use_type_invariant(&*mpk);
    }
    let h = hash_to_g1_point(label);
    let rb = sample_nonzero_scalar();
    let u = g2_mul_generator(&rb);
    let s = gt_exp_pair(&h, &mpk.bytes, &rb);
    proof {
        assert(scalar_ok(rb@) && rb@ != zero_scalar() && u@ == g2_mul_gen(rb@) && s@ == gt_exp(
            hash_g1(label@),
            mpk@,
            rb@,
        ));
    }
    (EphemeralPublicKey { bytes: u }, SharedSecret { bytes: s })
}

/// Reveal the decryption key for `label`: `[msk]·H(label)`.
pub fn reveal_key(label: &[u8], sk: &MasterPrivateKey) -> (r: DecryptionKey)
    ensures
        r@ == reveal_spec(label@, sk@),
{
    proof {
        use_type_invariant(&*sk);
    }
    let h = hash_to_g1_point(label);
    let dk = g1_mul_point(&sk.bytes, &h);
    DecryptionKey { bytes: dk }
}

/// Recover a shared secret from a share's ephemeral public key and the
/// label's decryption key: `e(dk, u)`.
pub fn recover(u: &EphemeralPublicKey, dk: &DecryptionKey) -> (r: SharedSecret)
    ensures
        r@ == gt_pair(dk@, u@),
{
    proof {
        use_type_invariant(&*u);
        use_type_invariant(&*dk);
    }
    SharedSecret { bytes: pair_points(&dk.bytes, &u.bytes) }
}

/// The compressed encoding of the G1 identity point: the compression and
/// infinity flags over zero bytes.
pub open spec fn g1_identity_bytes() -> Seq<u8> {
    Seq::new(
        48,
        |i: int|
            if i == 0 {
                0xc0u8
            } else {
                0u8
            },
    )
}

/// Check a revealed decryption key against the master public key:
/// `e(H(label), mpk) == e(dk, G2)`. An identity-point key is rejected
/// outright: it cannot arise from an honest reveal and would pass the
/// pairing equation trivially against a degenerate master key. Against an
/// honest master key pair, exactly the decryption key for `label` passes.
pub fn verify(label: &[u8], mpk: &MasterPublicKey, dk: &DecryptionKey) -> (r: bool)
    ensures
        dk@ == g1_identity_bytes() ==> r == false,
        forall|k: Seq<u8>| #[trigger]
            is_keypair(mpk@, k) && dk@ != g1_identity_bytes() ==> (r <==> dk@ == reveal_spec(
                label@,
                k,
            )),
{
    proof {
        use_type_invariant(&*mpk);
        use_type_invariant(&*dk);
    }
    let mut identity = [0u8; 48];
    identity[0] = 0xc0;
    proof {
        assert(identity@ =~= g1_identity_bytes());
    }
    if bytes_eq(dk.bytes.as_slice(), identity.as_slice()) {
        return false;
    }
    let h = hash_to_g1_point(label);
    pairing_check(&h, &mpk.bytes, &dk.bytes)
}

/// An ephemeral public key always views as its 96 compressed bytes.
pub proof fn lemma_epk_view_len(u: EphemeralPublicKey)
    ensures
        u@.len() == 96,
{
}

/// Correctness of reveal/recover: for an honest master key pair, the shared
/// secret of any honest share for a label equals the pairing of the label's
/// revealed decryption key with the share's ephemeral public key, which is
/// what `recover` computes.
pub proof fn lemma_reveal_recover(
    label: Seq<u8>,
    mpk: Seq<u8>,
    msk: Seq<u8>,
    u: Seq<u8>,
    s: Seq<u8>,
)
    requires
        is_keypair(mpk, msk),
        is_share(label, mpk, u, s),
    ensures
        gt_pair(reveal_spec(label, msk), u) == s,
{
    assert(scalar_ok(msk) && mpk == g2_mul_gen(msk));
}

} // verus!
