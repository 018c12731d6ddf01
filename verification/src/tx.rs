//! Coupling of the hybrid ciphertext with a typed transaction envelope: the
//! label derived from (chain id, sender, nonce), the encrypted and decrypted
//! shapes of the envelope, and the conversions between them.
//!
//! The plaintext of a transaction's ciphertext is the 20-byte callee address
//! followed by the call input; the AEAD associated data is the label itself,
//! which binds the ciphertext to its envelope.

use vstd::prelude::*;

use vstd::std_specs::cmp::PartialEqSpec;

use crate::Ciphertext;
use crate::DecryptionKey;
use crate::EphemeralPublicKey;
use crate::MasterPublicKey;
use crate::bls::gt_pair;
use crate::bytes_eq;
use crate::copy_bytes;
use crate::is_hybrid_encryption;
use crate::sha256_of;
use crate::symmetric::MAX_MESSAGE_SIZE;
use crate::symmetric::chacha_stream;
use crate::symmetric::poly_tag;

verus! {

/// Failures of the transaction coupling layer.
#[derive(Clone, Copy, Debug, PartialEq, Eq, Structural)]
pub enum Error {
    /// The signature is ill-formed or does not recover.
    SignatureError,
    /// The AEAD tag does not authenticate: wrong decryption key or tampering.
    AuthenticationError,
    /// Reserved for callers that pre-verify the decryption key.
    InvalidDecryptionKey,
    /// The recovered sender does not match the stored one.
    InvalidSender,
    /// The decrypted payload is shorter than a callee address.
    ShortPayloadError,
}

/// Byte `i` (big-endian position, `0 <= i < 8`) of a `u64`.
pub open spec fn u64_byte(v: u64, i: int) -> u8 {
    ((v >> (((7 - i) * 8) as u64)) & 0xff) as u8
}

/// Byte `i` (big-endian position, `0 <= i < 16`) of a `u128`.
pub open spec fn u128_byte(v: u128, i: int) -> u8 {
    ((v >> (((15 - i) * 8) as u128)) & 0xff) as u8
}

/// The 96-byte label of a transaction: zero padding around the big-endian
/// chain id at bytes 24..32, the sender address at bytes 44..64, and the
/// big-endian nonce at bytes 88..96.
pub open spec fn label_spec(chain_id: u64, sender: Seq<u8>, nonce: u64) -> Seq<u8> {
    Seq::new(
        96,
        |i: int|
            if 24 <= i < 32 {
                u64_byte(chain_id, i - 24)
            } else if 44 <= i < 64 {
                sender[i - 44]
            } else if 88 <= i < 96 {
                u64_byte(nonce, i - 88)
            } else {
                0u8
            },
    )
}

/// Build the label of a transaction from its chain id, sender and nonce.
pub fn label(chain_id: u64, sender: &[u8; 20], nonce: u64) -> (r: [u8; 96])
    ensures
        r@ == label_spec(chain_id, sender@, nonce),
{
    let mut l = [0u8; 96];
    let mut i: usize = 0;
    while i < 8
        invariant
            i <= 8,
            l@.len() == 96,
            forall|j: int| 0 <= j < 96 && !(24 <= j < 24 + i) ==> l@[j] == 0u8,
            forall|j: int| 24 <= j < 24 + i ==> l@[j] == u64_byte(chain_id, j - 24),
        decreases 8 - i,
    {
        l[24 + i] = ((chain_id >> (((7 - i) * 8) as u64)) & 0xff) as u8;
        i = i + 1;
    }
    let mut i: usize = 0;
    while i < 20
        invariant
            i <= 20,
            l@.len() == 96,
            forall|j: int|
                0 <= j < 96 && !(24 <= j < 32) && !(44 <= j < 44 + i) ==> l@[j] == 0u8,
            forall|j: int| 24 <= j < 32 ==> l@[j] == u64_byte(chain_id, j - 24),
            forall|j: int| 44 <= j < 44 + i ==> l@[j] == sender@[j - 44],
        decreases 20 - i,
    {
        l[44 + i] = sender[i];
        i = i + 1;
    }
    let mut i: usize = 0;
    while i < 8
        invariant
            i <= 8,
            l@.len() == 96,
            forall|j: int|
                0 <= j < 96 && !(24 <= j < 32) && !(44 <= j < 64) && !(88 <= j < 88 + i) ==> l@[j]
                    == 0u8,
            forall|j: int| 24 <= j < 32 ==> l@[j] == u64_byte(chain_id, j - 24),
            forall|j: int| 44 <= j < 64 ==> l@[j] == sender@[j - 44],
            forall|j: int| 88 <= j < 88 + i ==> l@[j] == u64_byte(nonce, j - 88),
        decreases 8 - i,
    {
        l[88 + i] = ((nonce >> (((7 - i) * 8) as u64)) & 0xff) as u8;
        i = i + 1;
    }
    proof {
        assert(l@ =~= label_spec(chain_id, sender@, nonce));
    }
    l
}

/// A 256-bit unsigned value, as two 128-bit halves.
#[derive(Clone, Copy, Debug, PartialEq, Eq, Structural)]
pub struct U256 {
    pub hi: u128,
    pub lo: u128,
}

impl U256 {
    /// The big-endian 32-byte form.
    pub open spec fn be_bytes(self) -> Seq<u8> {
        Seq::new(
            32,
            |i: int|
                if i < 16 {
                    u128_byte(self.hi, i)
                } else {
                    u128_byte(self.lo, i - 16)
                },
        )
    }

    /// A value that fits in 128 bits.
    pub fn from_u128(x: u128) -> (r: U256)
        ensures
            r.hi == 0,
            r.lo == x,
    {
        U256 { hi: 0, lo: x }
    }
}

impl Default for U256 {
    /// The zero value.
    fn default() -> (r: Self)
        ensures
            r.hi == 0,
            r.lo == 0,
    {
        U256 { hi: 0, lo: 0 }
    }
}

/// The kind of a transaction's `to` field: a plain call to an address, or
/// contract creation. Only calls can be encrypted.
#[derive(Clone, Copy, Debug)]
pub enum TxKind {
    /// Contract creation.
    Create,
    /// A call to the given 20-byte address.
    Call([u8; 20]),
}

impl PartialEq for TxKind {
    fn eq(&self, other: &Self) -> (r: bool) {
        match (self, other) {
            (TxKind::Create, TxKind::Create) => true,
            (TxKind::Call(a), TxKind::Call(b)) => bytes_eq(a.as_slice(), b.as_slice()),
            _ => false,
        }
    }
}

impl Eq for TxKind {

}

impl vstd::std_specs::cmp::PartialEqSpecImpl for TxKind {
    open spec fn obeys_eq_spec() -> bool {
        true
    }

    open spec fn eq_spec(&self, other: &Self) -> bool {
        match (self, other) {
            (TxKind::Create, TxKind::Create) => true,
            (TxKind::Call(a), TxKind::Call(b)) => a@ == b@,
            _ => false,
        }
    }
}

/// One entry of an access list: an address and its storage keys.
#[derive(Debug)]
pub struct AccessListItem {
    pub address: [u8; 20],
    pub storage_keys: Vec<[u8; 32]>,
}

impl PartialEq for AccessListItem {
    fn eq(&self, other: &Self) -> (r: bool) {
        if !bytes_eq(self.address.as_slice(), other.address.as_slice()) {
            return false;
        }
        if self.storage_keys.len() != other.storage_keys.len() {
            proof {
                assert(self.storage_keys@.map_values(|k: [u8; 32]| k@).len()
                    != other.storage_keys@.map_values(|k: [u8; 32]| k@).len());
            }
            return false;
        }
        let n: usize = self.storage_keys.len();
        let mut i: usize = 0;
        while i < n
            invariant
                i <= n,
                n == self.storage_keys@.len(),
                n == other.storage_keys@.len(),
                forall|j: int| 0 <= j < i ==> self.storage_keys@[j]@ == other.storage_keys@[j]@,
            decreases n - i,
        {
            if !bytes_eq(self.storage_keys[i].as_slice(), other.storage_keys[i].as_slice()) {
                proof {
                    assert(self.storage_keys@.map_values(|k: [u8; 32]| k@)[i as int]
                        != other.storage_keys@.map_values(|k: [u8; 32]| k@)[i as int]);
                }
                return false;
            }
            i = i + 1;
        }
        proof {
            assert(self.storage_keys@.map_values(|k: [u8; 32]| k@) =~= other.storage_keys@
                .map_values(|k: [u8; 32]| k@));
        }
        true
    }
}

impl Eq for AccessListItem {

}

impl vstd::std_specs::cmp::PartialEqSpecImpl for AccessListItem {
    open spec fn obeys_eq_spec() -> bool {
        true
    }

    open spec fn eq_spec(&self, other: &Self) -> bool {
        self.address@ == other.address@ && self.storage_keys@.map_values(|k: [u8; 32]| k@)
            == other.storage_keys@.map_values(|k: [u8; 32]| k@)
    }
}

/// The access list of a transaction.
#[derive(Debug)]
pub struct AccessList {
    pub items: Vec<AccessListItem>,
}

/// The view of an access list: per item, the address bytes and the sequence
/// of storage key byte strings.
pub open spec fn access_list_view(al: AccessList) -> Seq<(Seq<u8>, Seq<Seq<u8>>)> {
    al.items@.map_values(
        |it: AccessListItem| (it.address@, it.storage_keys@.map_values(|k: [u8; 32]| k@)),
    )
}

impl Default for AccessList {
    /// The empty access list.
    fn default() -> (r: Self)
        ensures
            r.items@.len() == 0,
    {
        AccessList { items: Vec::new() }
    }
}

impl PartialEq for AccessList {
    fn eq(&self, other: &Self) -> (r: bool) {
        if self.items.len() != other.items.len() {
            proof {
                assert(access_list_view(*self).len() != access_list_view(*other).len());
            }
            return false;
        }
        let n: usize = self.items.len();
        let mut i: usize = 0;
        while i < n
            invariant
                i <= n,
                n == self.items@.len(),
                n == other.items@.len(),
                forall|j: int|
                    0 <= j < i ==> #[trigger] self.items@[j].eq_spec(&other.items@[j]),
            decreases n - i,
        {
            if !(self.items[i] == other.items[i]) {
                proof {
                    assert(access_list_view(*self)[i as int] != access_list_view(
                        *other,
                    )[i as int]);
                }
                return false;
            }
            i = i + 1;
        }
        proof {
            assert forall|j: int| 0 <= j < n implies access_list_view(*self)[j]
                == access_list_view(*other)[j] by {
                assert(self.items@[j].eq_spec(&other.items@[j]));
                assert(self.items@[j].address@ == other.items@[j].address@);
                assert(self.items@[j].storage_keys@.map_values(|k: [u8; 32]| k@)
                    == other.items@[j].storage_keys@.map_values(|k: [u8; 32]| k@));
            }
            assert(access_list_view(*self) =~= access_list_view(*other));
        }
        true
    }
}

impl Eq for AccessList {

}

impl vstd::std_specs::cmp::PartialEqSpecImpl for AccessList {
    open spec fn obeys_eq_spec() -> bool {
        true
    }

    open spec fn eq_spec(&self, other: &Self) -> bool {
        access_list_view(*self) == access_list_view(*other)
    }
}


/// The address of a call, or the empty byte string for a creation.
pub open spec fn to_addr(k: TxKind) -> Seq<u8> {
    match k {
        TxKind::Call(a) => a@,
        TxKind::Create => Seq::empty(),
    }
}

/// The memory heuristic of an access list: 20 bytes per address and 32 per
/// storage key.
pub open spec fn access_list_size_spec(items: Seq<(Seq<u8>, Seq<Seq<u8>>)>) -> nat
    decreases items.len(),
{
    if items.len() == 0 {
        0
    } else {
        access_list_size_spec(items.drop_last()) + 20 + 32 * items.last().1.len()
    }
}

proof fn lemma_access_list_size_prefix(items: Seq<(Seq<u8>, Seq<Seq<u8>>)>, i: int)
    requires
        0 <= i <= items.len(),
    ensures
        access_list_size_spec(items.take(i)) <= access_list_size_spec(items),
    decreases items.len() - i,
{
    if i == items.len() {
        assert(items.take(i) =~= items);
    } else {
        lemma_access_list_size_prefix(items, i + 1);
        assert(items.take(i + 1).drop_last() =~= items.take(i));
        assert(items.take(i + 1).last() == items[i]);
    }
}

impl Clone for AccessListItem {
    /// An equal copy.
    fn clone(&self) -> (r: Self)
        ensures
            r.eq_spec(self),
            r.address@ == self.address@,
            r.storage_keys@.map_values(|k: [u8; 32]| k@) == self.storage_keys@.map_values(
                |k: [u8; 32]| k@,
            ),
    {
        let n: usize = self.storage_keys.len();
        let mut keys: Vec<[u8; 32]> = Vec::new();
        let mut i: usize = 0;
        while i < n
            invariant
                i <= n,
                n == self.storage_keys@.len(),
                keys@ == self.storage_keys@.take(i as int),
            decreases n - i,
        {
            keys.push(self.storage_keys[i]);
            proof {
                assert(self.storage_keys@.take(i + 1) =~= self.storage_keys@.take(
                    i as int,
                ).push(self.storage_keys@[i as int]));
            }
            i = i + 1;
        }
        proof {
            assert(self.storage_keys@.take(n as int) =~= self.storage_keys@);
        }
        AccessListItem { address: self.address, storage_keys: keys }
    }
}

impl Clone for AccessList {
    /// An equal copy.
    fn clone(&self) -> (r: Self)
        ensures
            access_list_view(r) == access_list_view(*self),
    {
        let n: usize = self.items.len();
        let mut items: Vec<AccessListItem> = Vec::new();
        let mut i: usize = 0;
        while i < n
            invariant
                i <= n,
                n == self.items@.len(),
                items@.len() == i,
                forall|j: int|
                    0 <= j < i ==> #[trigger] items@[j].eq_spec(&self.items@[j])
                        && items@[j].address@ == self.items@[j].address@ && items@[j].storage_keys@
                        .map_values(|k: [u8; 32]| k@) == self.items@[j].storage_keys@.map_values(
                        |k: [u8; 32]| k@,
                    ),
            decreases n - i,
        {
            let c = self.items[i].clone();
            items.push(c);
            proof {
                assert(items@[i as int].eq_spec(&self.items@[i as int]));
            }
            i = i + 1;
        }
        let r = AccessList { items };
        proof {
            assert forall|j: int| 0 <= j < n implies access_list_view(r)[j] == access_list_view(
                *self,
            )[j] by {
                assert(r.items@[j].eq_spec(&self.items@[j]));
            }
            assert(access_list_view(r) =~= access_list_view(*self));
        }
        r
    }
}

impl AccessList {
    /// The memory heuristic of the list: 20 bytes per address and 32 per
    /// storage key.
    pub fn size(&self) -> (r: usize)
        requires
            access_list_size_spec(access_list_view(*self)) <= usize::MAX,
        ensures
            r == access_list_size_spec(access_list_view(*self)),
    {
        let n: usize = self.items.len();
        let mut acc: usize = 0;
        let mut i: usize = 0;
        while i < n
            invariant
                i <= n,
                n == self.items@.len(),
                n == access_list_view(*self).len(),
                acc == access_list_size_spec(access_list_view(*self).take(i as int)),
                access_list_size_spec(access_list_view(*self)) <= usize::MAX,
            decreases n - i,
        {
            proof {
                lemma_access_list_size_prefix(access_list_view(*self), i + 1);
                assert(access_list_view(*self).take(i + 1).drop_last() =~= access_list_view(
                    *self,
                ).take(i as int));
                assert(access_list_view(*self).take(i + 1).last() == access_list_view(*self)[
                    i as int]);
                assert(access_list_view(*self)[i as int].1.len() == self.items@[
                    i as int].storage_keys@.len());
            }
            let keys: usize = self.items[i].storage_keys.len();
            acc = acc + 20 + 32 * keys;
            i = i + 1;
        }
        proof {
            assert(access_list_view(*self).take(n as int) =~= access_list_view(*self));
        }
        acc
    }
}


/// Copy the first 20 bytes of a slice into an address array.
fn addr_from_slice(s: &[u8]) -> (r: [u8; 20])
    requires
        s@.len() >= 20,
    ensures
        r@ == s@.take(20),
{
    let mut a = [0u8; 20];
    let mut i: usize = 0;
    while i < 20
        invariant
            i <= 20,
            s@.len() >= 20,
            a@.len() == 20,
            forall|j: int| 0 <= j < i ==> a@[j] == s@[j],
        decreases 20 - i,
    {
        a[i] = s[i];
        i = i + 1;
    }
    proof {
        assert(a@ =~= s@.take(20));
    }
    a
}

/// Copy the bytes of a slice from `start` on.
fn copy_tail(s: &[u8], start: usize) -> (r: Vec<u8>)
    requires
        start <= s@.len(),
    ensures
        r@ == s@.skip(start as int),
{
    let n: usize = s.len();
    let mut v: Vec<u8> = Vec::new();
    let mut i: usize = start;
    while i < n
        invariant
            start <= i <= n,
            n == s@.len(),
            v@.len() == i - start,
            forall|j: int| 0 <= j < v@.len() ==> v@[j] == s@[start + j],
        decreases n - i,
    {
        v.push(s[i]);
        i = i + 1;
    }
    proof {
        assert(v@ =~= s@.skip(start as int));
    }
    v
}

/// A plain transaction request with a priority fee: what a sender asks to
/// have encrypted.
#[derive(Debug)]
pub struct TxEip1559 {
    pub chain_id: u64,
    pub nonce: u64,
    pub gas_limit: u64,
    pub max_fee_per_gas: u128,
    pub max_priority_fee_per_gas: u128,
    pub to: TxKind,
    pub value: U256,
    pub access_list: AccessList,
    pub input: Vec<u8>,
}

/// The encrypted shape of the envelope: the plain fee fields and the
/// ciphertext hiding the callee and the call input.
#[derive(Debug)]
pub struct TxDawnEncrypted {
    pub chain_id: u64,
    pub nonce: u64,
    pub gas_limit: u64,
    pub max_fee_per_gas: u128,
    pub max_priority_fee_per_gas: u128,
    pub value: U256,
    pub access_list: AccessList,
    pub ciphertext: Ciphertext,
}

/// The decrypted shape of the envelope. It retains the ephemeral public key,
/// the decryption key and the sender so it can be re-encrypted into the
/// original encrypted shape without a back pointer.
#[derive(Debug)]
pub struct TxDawnDecrypted {
    pub chain_id: u64,
    pub nonce: u64,
    pub gas_limit: u64,
    pub max_fee_per_gas: u128,
    pub max_priority_fee_per_gas: u128,
    pub to: TxKind,
    pub value: U256,
    pub access_list: AccessList,
    pub input: Vec<u8>,
    pub ephemeral_public_key: EphemeralPublicKey,
    pub decryption_key: DecryptionKey,
    pub sender: [u8; 20],
}

impl Clone for TxDawnEncrypted {
    /// An equal copy.
    fn clone(&self) -> (r: Self)
        ensures
            r.eq_spec(self),
    {
        TxDawnEncrypted {
            chain_id: self.chain_id,
            nonce: self.nonce,
            gas_limit: self.gas_limit,
            max_fee_per_gas: self.max_fee_per_gas,
            max_priority_fee_per_gas: self.max_priority_fee_per_gas,
            value: self.value,
            access_list: self.access_list.clone(),
            ciphertext: self.ciphertext.clone(),
        }
    }
}

impl PartialEq for TxDawnEncrypted {
    fn eq(&self, other: &Self) -> (r: bool) {
        self.chain_id == other.chain_id && self.nonce == other.nonce && self.gas_limit
            == other.gas_limit && self.max_fee_per_gas == other.max_fee_per_gas
            && self.max_priority_fee_per_gas == other.max_priority_fee_per_gas && self.value
            == other.value && self.access_list == other.access_list && self.ciphertext
            == other.ciphertext
    }
}

impl Eq for TxDawnEncrypted {

}

impl vstd::std_specs::cmp::PartialEqSpecImpl for TxDawnEncrypted {
    open spec fn obeys_eq_spec() -> bool {
        true
    }

    open spec fn eq_spec(&self, other: &Self) -> bool {
        &&& self.chain_id == other.chain_id
        &&& self.nonce == other.nonce
        &&& self.gas_limit == other.gas_limit
        &&& self.max_fee_per_gas == other.max_fee_per_gas
        &&& self.max_priority_fee_per_gas == other.max_priority_fee_per_gas
        &&& self.value == other.value
        &&& access_list_view(self.access_list) == access_list_view(other.access_list)
        &&& vstd::std_specs::cmp::PartialEqSpec::eq_spec(&self.ciphertext, &other.ciphertext)
    }
}

impl Clone for TxDawnDecrypted {
    /// An equal copy.
    fn clone(&self) -> (r: Self)
        ensures
            r.eq_spec(self),
    {
        TxDawnDecrypted {
            chain_id: self.chain_id,
            nonce: self.nonce,
            gas_limit: self.gas_limit,
            max_fee_per_gas: self.max_fee_per_gas,
            max_priority_fee_per_gas: self.max_priority_fee_per_gas,
            to: self.to,
            value: self.value,
            access_list: self.access_list.clone(),
            input: crate::copy_bytes(self.input.as_slice()),
            ephemeral_public_key: self.ephemeral_public_key,
            decryption_key: self.decryption_key,
            sender: self.sender,
        }
    }
}

impl PartialEq for TxDawnDecrypted {
    fn eq(&self, other: &Self) -> (r: bool) {
        self.chain_id == other.chain_id && self.nonce == other.nonce && self.gas_limit
            == other.gas_limit && self.max_fee_per_gas == other.max_fee_per_gas
            && self.max_priority_fee_per_gas == other.max_priority_fee_per_gas && self.to
            == other.to && self.value == other.value && self.access_list == other.access_list
            && bytes_eq(self.input.as_slice(), other.input.as_slice())
            && self.ephemeral_public_key == other.ephemeral_public_key && self.decryption_key
            == other.decryption_key && bytes_eq(self.sender.as_slice(), other.sender.as_slice())
    }
}

impl Eq for TxDawnDecrypted {

}

impl vstd::std_specs::cmp::PartialEqSpecImpl for TxDawnDecrypted {
    open spec fn obeys_eq_spec() -> bool {
        true
    }

    open spec fn eq_spec(&self, other: &Self) -> bool {
        &&& self.chain_id == other.chain_id
        &&& self.nonce == other.nonce
        &&& self.gas_limit == other.gas_limit
        &&& self.max_fee_per_gas == other.max_fee_per_gas
        &&& self.max_priority_fee_per_gas == other.max_priority_fee_per_gas
        &&& vstd::std_specs::cmp::PartialEqSpec::eq_spec(&self.to, &other.to)
        &&& self.value == other.value
        &&& access_list_view(self.access_list) == access_list_view(other.access_list)
        &&& self.input@ == other.input@
        &&& self.ephemeral_public_key@ == other.ephemeral_public_key@
        &&& self.decryption_key@ == other.decryption_key@
        &&& self.sender@ == other.sender@
    }
}

/// The effective gas price of a transaction under an optional base fee.
pub open spec fn effective_gas_price_spec(
    max_fee_per_gas: u128,
    max_priority_fee_per_gas: u128,
    base_fee: Option<u64>,
) -> int {
    match base_fee {
        None => max_fee_per_gas as int,
        Some(bf) => {
            let tip = if max_fee_per_gas >= bf { max_fee_per_gas - bf } else { 0 };
            if tip > max_priority_fee_per_gas {
                max_priority_fee_per_gas + bf
            } else {
                max_fee_per_gas as int
            }
        },
    }
}

impl TxDawnEncrypted {
    /// The effective gas price for the given base fee: the max fee, capped
    /// at the priority fee plus the base fee.
    pub fn effective_gas_price(&self, base_fee: Option<u64>) -> (r: u128)
        ensures
            r == effective_gas_price_spec(
                self.max_fee_per_gas,
                self.max_priority_fee_per_gas,
                base_fee,
            ),
    {
        match base_fee {
            None => self.max_fee_per_gas,
            Some(base_fee) => {
                let tip = self.max_fee_per_gas.saturating_sub(base_fee as u128);
                if tip > self.max_priority_fee_per_gas {
                    self.max_priority_fee_per_gas + base_fee as u128
                } else {
                    self.max_fee_per_gas
                }
            },
        }
    }

    /// A heuristic for the in-memory size of the transaction.
    pub fn size(&self) -> (r: usize)
        requires
            88 + access_list_size_spec(access_list_view(self.access_list)) + 96
                + self.ciphertext.payload@.len() + 16 <= usize::MAX,
        ensures
            r == 88 + access_list_size_spec(access_list_view(self.access_list)) + 96
                + self.ciphertext.payload@.len() + 16,
    {
        let al = self.access_list.size();
        8 + 8 + 8 + 16 + 16 + 32 + al + 96 + self.ciphertext.payload.len() + 16
    }
}


/// The label of an encrypted transaction, rebuilt from its fields and the
/// sender.
pub open spec fn tx_label(tx: TxDawnEncrypted, sender: Seq<u8>) -> Seq<u8> {
    label_spec(tx.chain_id, sender, tx.nonce)
}

/// The symmetric key of an encrypted transaction under a decryption key.
pub open spec fn tx_key(tx: TxDawnEncrypted, dk: Seq<u8>) -> Seq<u8> {
    sha256_of(gt_pair(dk, tx.ciphertext.u@))
}

/// The plaintext hidden in an encrypted transaction under a decryption key:
/// the callee address followed by the call input.
pub open spec fn tx_plaintext(tx: TxDawnEncrypted, dk: Seq<u8>) -> Seq<u8> {
    chacha_stream(tx_key(tx, dk), tx.ciphertext.payload@)
}

/// Whether a decryption key authenticates an encrypted transaction for a
/// sender: the tag is the Poly1305 tag of the body under the derived key,
/// with the label as associated data.
pub open spec fn tx_authentic(tx: TxDawnEncrypted, dk: Seq<u8>, sender: Seq<u8>) -> bool {
    tx.ciphertext.tag@ == poly_tag(tx_key(tx, dk), tx.ciphertext.payload@, tx_label(tx, sender))
}

/// Encrypt a plain call transaction against the master public key: the
/// plaintext is the callee address followed by the input, the label (also
/// the associated data) is derived from the chain id, the sender and the
/// nonce, and the remaining fields are copied.
pub fn encrypt(mpk: &MasterPublicKey, tx: &TxEip1559, sender: &[u8; 20]) -> (r: TxDawnEncrypted)
    requires
        tx.to matches TxKind::Call(_),
        20 + tx.input@.len() < MAX_MESSAGE_SIZE,
    ensures
        r.chain_id == tx.chain_id,
        r.nonce == tx.nonce,
        r.gas_limit == tx.gas_limit,
        r.max_fee_per_gas == tx.max_fee_per_gas,
        r.max_priority_fee_per_gas == tx.max_priority_fee_per_gas,
        r.value == tx.value,
        access_list_view(r.access_list) == access_list_view(tx.access_list),
        is_hybrid_encryption(
            mpk@,
            label_spec(tx.chain_id, sender@, tx.nonce),
            to_addr(tx.to) + tx.input@,
            label_spec(tx.chain_id, sender@, tx.nonce),
            r.ciphertext.u@,
            r.ciphertext.payload@,
            r.ciphertext.tag@,
        ),
        r.ciphertext.payload@.len() == 20 + tx.input@.len(),
{
    let to = match &tx.to {
        TxKind::Call(a) => a,
        TxKind::Create => {
            proof {
                assert(false);
            }
            &[0u8; 20]
        },
    };
    let mut payload = copy_bytes(to.as_slice());
    payload.extend_from_slice(tx.input.as_slice());
    proof {
        assert(payload@ =~= to_addr(tx.to) + tx.input@);
    }
    let lbl = label(tx.chain_id, sender, tx.nonce);
    let ciphertext = Ciphertext::encrypt(mpk, lbl.as_slice(), payload.as_slice(), lbl.as_slice());
    TxDawnEncrypted {
        chain_id: tx.chain_id,
        nonce: tx.nonce,
        gas_limit: tx.gas_limit,
        max_fee_per_gas: tx.max_fee_per_gas,
        max_priority_fee_per_gas: tx.max_priority_fee_per_gas,
        value: tx.value,
        access_list: tx.access_list.clone(),
        ciphertext,
    }
}

/// Decrypt an encrypted transaction with the label's decryption key and the
/// known sender. Fails with `AuthenticationError` exactly when the tag does
/// not authenticate, and with `ShortPayloadError` exactly when the decrypted
/// payload is shorter than a 20-byte callee address; otherwise the payload
/// splits into the callee and the input, and the decrypted shape retains the
/// ephemeral public key, the decryption key and the sender.
pub fn decrypt_unsigned(
    tx: &TxDawnEncrypted,
    decryption_key: &DecryptionKey,
    sender: &[u8; 20],
) -> (r: Result<TxDawnDecrypted, Error>)
    requires
        tx.ciphertext.payload@.len() < MAX_MESSAGE_SIZE,
    ensures
        r is Ok <==> tx_authentic(*tx, decryption_key@, sender@) && tx_plaintext(
            *tx,
            decryption_key@,
        ).len() >= 20,
        !tx_authentic(*tx, decryption_key@, sender@) <==> r == Err::<
            TxDawnDecrypted,
            Error,
        >(Error::AuthenticationError),
        tx_authentic(*tx, decryption_key@, sender@) && tx_plaintext(
            *tx,
            decryption_key@,
        ).len() < 20 <==> r == Err::<TxDawnDecrypted, Error>(Error::ShortPayloadError),
        r matches Ok(d) ==> {
            let pt = tx_plaintext(*tx, decryption_key@);
            &&& d.chain_id == tx.chain_id
            &&& d.nonce == tx.nonce
            &&& d.gas_limit == tx.gas_limit
            &&& d.max_fee_per_gas == tx.max_fee_per_gas
            &&& d.max_priority_fee_per_gas == tx.max_priority_fee_per_gas
            &&& d.value == tx.value
            &&& access_list_view(d.access_list) == access_list_view(tx.access_list)
            &&& d.to matches TxKind::Call(a) && a@ == pt.take(20)
            &&& d.input@ == pt.skip(20)
            &&& d.ephemeral_public_key@ == tx.ciphertext.u@
            &&& d.decryption_key@ == decryption_key@
            &&& d.sender@ == sender@
            &&& pt.len() == tx.ciphertext.payload@.len()
            &&& chacha_stream(tx_key(*tx, decryption_key@), pt) == tx.ciphertext.payload@
        },
{
    let lbl = label(tx.chain_id, sender, tx.nonce);
    let decrypted = tx.ciphertext.decrypt(decryption_key, lbl.as_slice());
    match decrypted {
        None => Err(Error::AuthenticationError),
        Some(payload) => {
            if payload.len() < 20 {
                return Err(Error::ShortPayloadError);
            }
            let to = addr_from_slice(payload.as_slice());
            let input = copy_tail(payload.as_slice(), 20);
            Ok(TxDawnDecrypted {
                chain_id: tx.chain_id,
                nonce: tx.nonce,
                gas_limit: tx.gas_limit,
                max_fee_per_gas: tx.max_fee_per_gas,
                max_priority_fee_per_gas: tx.max_priority_fee_per_gas,
                to: TxKind::Call(to),
                value: tx.value,
                access_list: tx.access_list.clone(),
                input,
                ephemeral_public_key: tx.ciphertext.u,
                decryption_key: *decryption_key,
                sender: *sender,
            })
        },
    }
}

/// Re-encrypt a decrypted transaction into its encrypted shape: rebuild the
/// label from the retained sender, the plaintext from the callee and the
/// input, and the ciphertext deterministically from the retained ephemeral
/// public key and decryption key.
pub fn reencrypt_unsigned(tx: &TxDawnDecrypted) -> (r: TxDawnEncrypted)
    requires
        tx.to matches TxKind::Call(_),
        20 + tx.input@.len() < MAX_MESSAGE_SIZE,
    ensures
        r.chain_id == tx.chain_id,
        r.nonce == tx.nonce,
        r.gas_limit == tx.gas_limit,
        r.max_fee_per_gas == tx.max_fee_per_gas,
        r.max_priority_fee_per_gas == tx.max_priority_fee_per_gas,
        r.value == tx.value,
        access_list_view(r.access_list) == access_list_view(tx.access_list),
        r.ciphertext.u@ == tx.ephemeral_public_key@,
        r.ciphertext.payload@ == chacha_stream(
            sha256_of(gt_pair(tx.decryption_key@, tx.ephemeral_public_key@)),
            to_addr(tx.to) + tx.input@,
        ),
        r.ciphertext.tag@ == poly_tag(
            sha256_of(gt_pair(tx.decryption_key@, tx.ephemeral_public_key@)),
            r.ciphertext.payload@,
            label_spec(tx.chain_id, tx.sender@, tx.nonce),
        ),
{
    let lbl = label(tx.chain_id, &tx.sender, tx.nonce);
    let to = match &tx.to {
        TxKind::Call(a) => a,
        TxKind::Create => {
            proof {
                assert(false);
            }
            &[0u8; 20]
        },
    };
    let mut payload = copy_bytes(to.as_slice());
    payload.extend_from_slice(tx.input.as_slice());
    proof {
        assert(payload@ =~= to_addr(tx.to) + tx.input@);
    }
    let ciphertext = Ciphertext::reencrypt(
        &tx.ephemeral_public_key,
        &tx.decryption_key,
        payload.as_slice(),
        lbl.as_slice(),
    );
    TxDawnEncrypted {
        chain_id: tx.chain_id,
        nonce: tx.nonce,
        gas_limit: tx.gas_limit,
        max_fee_per_gas: tx.max_fee_per_gas,
        max_priority_fee_per_gas: tx.max_priority_fee_per_gas,
        value: tx.value,
        access_list: tx.access_list.clone(),
        ciphertext,
    }
}

/// Decrypt followed by re-encrypt reproduces the original encrypted body: a
/// decrypted transaction obtained from an authentic encrypted one determines,
/// through `reencrypt_unsigned`, the very same ciphertext bytes.
pub proof fn lemma_tx_reencrypt_round_trip(tx: TxDawnEncrypted, d: TxDawnDecrypted, dk: Seq<u8>)
    requires
        tx_authentic(tx, dk, d.sender@),
        tx_plaintext(tx, dk).len() >= 20,
        d.to matches TxKind::Call(a) && a@ == tx_plaintext(tx, dk).take(20),
        d.input@ == tx_plaintext(tx, dk).skip(20),
        d.ephemeral_public_key@ == tx.ciphertext.u@,
        d.decryption_key@ == dk,
        d.chain_id == tx.chain_id,
        d.nonce == tx.nonce,
        chacha_stream(tx_key(tx, dk), tx_plaintext(tx, dk)) == tx.ciphertext.payload@,
    ensures
        chacha_stream(
            sha256_of(gt_pair(d.decryption_key@, d.ephemeral_public_key@)),
            to_addr(d.to) + d.input@,
        ) == tx.ciphertext.payload@,
        poly_tag(
            sha256_of(gt_pair(d.decryption_key@, d.ephemeral_public_key@)),
            tx.ciphertext.payload@,
            label_spec(d.chain_id, d.sender@, d.nonce),
        ) == tx.ciphertext.tag@,
{
    let pt = tx_plaintext(tx, dk);
    assert(to_addr(d.to) + d.input@ =~= pt);
}

} // verus!
