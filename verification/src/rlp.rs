//! The deterministic wire form of the encrypted transaction body: recursive
//! length-prefixed byte strings and lists, with integers trimmed to their
//! minimal big-endian form.

use vstd::prelude::*;

use vstd::arithmetic::div_mod::lemma_div_denominator;
use vstd::arithmetic::div_mod::lemma_fundamental_div_mod;
use vstd::arithmetic::power2::lemma_pow2_adds;
use vstd::arithmetic::power2::lemma_pow2_pos;
use vstd::arithmetic::power2::lemma2_to64;
use vstd::arithmetic::power2::pow2;
use vstd::bits::lemma_u64_shr_is_div;
use vstd::bits::lemma_u128_shr_is_div;

use crate::Ciphertext;
use crate::EphemeralPublicKey;
use crate::tx::AccessList;
use crate::tx::AccessListItem;
use crate::tx::TxDawnEncrypted;
use crate::tx::U256;
use crate::tx::access_list_view;
use crate::tx::u64_byte;
use crate::tx::u128_byte;

verus! {

/// The minimal big-endian base-256 digits of `n`: empty for zero.
pub open spec fn len_be(n: nat) -> Seq<u8>
    decreases n,
{
    if n == 0 {
        Seq::empty()
    } else {
        len_be(n / 256).push((n % 256) as u8)
    }
}

/// `s` with its leading zero bytes removed.
pub open spec fn trim_zeros(s: Seq<u8>) -> Seq<u8>
    decreases s.len(),
{
    if s.len() > 0 && s[0] == 0 {
        trim_zeros(s.skip(1))
    } else {
        s
    }
}

/// The header of an item whose payload has `n` bytes: a single tagged byte
/// for short payloads, or a tagged length-of-length byte followed by the
/// minimal big-endian length.
pub open spec fn rlp_header_spec(is_list: bool, n: nat) -> Seq<u8> {
    let base: u8 = if is_list {
        0xc0
    } else {
        0x80
    };
    if n <= 55 {
        seq![(base + n) as u8]
    } else {
        seq![(base + 55 + len_be(n).len()) as u8] + len_be(n)
    }
}

/// The encoding of the byte string `s`: a single byte below 0x80 stands for
/// itself, anything else is prefixed with a string header.
pub open spec fn rlp_str_spec(s: Seq<u8>) -> Seq<u8> {
    if s.len() == 1 && s[0] < 0x80 {
        s
    } else {
        rlp_header_spec(false, s.len()) + s
    }
}

/// The 8-byte big-endian form of a `u64`.
pub open spec fn u64_be_seq(v: u64) -> Seq<u8> {
    Seq::new(8, |i: int| u64_byte(v, i))
}

/// The 16-byte big-endian form of a `u128`.
pub open spec fn u128_be_seq(v: u128) -> Seq<u8> {
    Seq::new(16, |i: int| u128_byte(v, i))
}

/// The encoding of a `u64`: its trimmed big-endian bytes as a string.
pub open spec fn rlp_u64_spec(v: u64) -> Seq<u8> {
    rlp_str_spec(trim_zeros(u64_be_seq(v)))
}

/// The encoding of a `u128`: its trimmed big-endian bytes as a string.
pub open spec fn rlp_u128_spec(v: u128) -> Seq<u8> {
    rlp_str_spec(trim_zeros(u128_be_seq(v)))
}

/// The encoding of a 256-bit value: its trimmed big-endian bytes as a string.
pub open spec fn rlp_u256_spec(v: U256) -> Seq<u8> {
    rlp_str_spec(trim_zeros(v.be_bytes()))
}

/// The encoding of a `bool`: one for true, the empty string for false.
pub open spec fn rlp_bool_spec(v: bool) -> Seq<u8> {
    if v {
        seq![1u8]
    } else {
        seq![0x80u8]
    }
}

/// The concatenated encodings of a sequence of byte strings.
pub open spec fn concat_rlp_strs(keys: Seq<Seq<u8>>) -> Seq<u8>
    decreases keys.len(),
{
    if keys.len() == 0 {
        Seq::empty()
    } else {
        concat_rlp_strs(keys.drop_last()) + rlp_str_spec(keys.last())
    }
}

/// The encoding of one access list entry: a list of the address and the list
/// of its storage keys.
pub open spec fn rlp_access_item_spec(it: (Seq<u8>, Seq<Seq<u8>>)) -> Seq<u8> {
    let keys = concat_rlp_strs(it.1);
    let payload = rlp_str_spec(it.0) + rlp_header_spec(true, keys.len()) + keys;
    rlp_header_spec(true, payload.len()) + payload
}

/// The concatenated encodings of the access list entries.
pub open spec fn concat_rlp_items(items: Seq<(Seq<u8>, Seq<Seq<u8>>)>) -> Seq<u8>
    decreases items.len(),
{
    if items.len() == 0 {
        Seq::empty()
    } else {
        concat_rlp_items(items.drop_last()) + rlp_access_item_spec(items.last())
    }
}

/// The encoding of an access list: the list of its entries.
pub open spec fn rlp_access_list_spec(items: Seq<(Seq<u8>, Seq<Seq<u8>>)>) -> Seq<u8> {
    rlp_header_spec(true, concat_rlp_items(items).len()) + concat_rlp_items(items)
}

/// The concatenated encodings of the fields of an encrypted transaction, in
/// wire order, without a list header.
pub open spec fn tx_fields_rlp(tx: TxDawnEncrypted) -> Seq<u8> {
    rlp_u64_spec(tx.chain_id) + rlp_u64_spec(tx.nonce) + rlp_u128_spec(tx.max_priority_fee_per_gas)
        + rlp_u128_spec(tx.max_fee_per_gas) + rlp_u64_spec(tx.gas_limit) + rlp_u256_spec(tx.value)
        + rlp_access_list_spec(access_list_view(tx.access_list)) + rlp_str_spec(tx.ciphertext.u@)
        + rlp_str_spec(tx.ciphertext.payload@) + rlp_str_spec(tx.ciphertext.tag@)
}

/// 256 to the power `k`.
pub open spec fn pow256(k: nat) -> nat
    decreases k,
{
    if k == 0 {
        1
    } else {
        256 * pow256((k - 1) as nat)
    }
}

proof fn lemma_len_be_bound(n: nat, k: nat)
    requires
        n < pow256(k),
    ensures
        len_be(n).len() <= k,
    decreases k,
{
    if n == 0 {
    } else {
        assert(k > 0);
        assert(n / 256 < pow256((k - 1) as nat)) by (nonlinear_arith)
            requires
                n < 256 * pow256((k - 1) as nat),
        ;
        lemma_len_be_bound(n / 256, (k - 1) as nat);
    }
}

proof fn lemma_len_be_usize(n: usize)
    ensures
        len_be(n as nat).len() <= 8,
{
    assert(pow256(1) == 256 * pow256(0));
    assert(pow256(2) == 256 * pow256(1));
    assert(pow256(3) == 256 * pow256(2));
    assert(pow256(4) == 256 * pow256(3));
    assert(pow256(5) == 256 * pow256(4));
    assert(pow256(6) == 256 * pow256(5));
    assert(pow256(7) == 256 * pow256(6));
    assert(pow256(8) == 256 * pow256(7));
    assert(pow256(8) == 0x1_0000_0000_0000_0000);
    lemma_len_be_bound(n as nat, 8);
}

/// The minimal big-endian digits of `n`, as a fresh vector.
fn be_bytes_of(n: usize) -> (r: Vec<u8>)
    ensures
        r@ == len_be(n as nat),
    decreases n,
{
    if n == 0 {
        Vec::new()
    } else {
        proof {
            assert(n / 256 < n) by (nonlinear_arith)
                requires
                    n >= 1,
            ;
        }
        let mut v = be_bytes_of(n / 256);
        v.push((n % 256) as u8);
        v
    }
}

/// Append the header of an item with an `n`-byte payload.
pub fn encode_header(out: &mut Vec<u8>, is_list: bool, n: usize)
    ensures
        final(out)@ == old(out)@ + rlp_header_spec(is_list, n as nat),
{
    let base: u8 = if is_list {
        0xc0
    } else {
        0x80
    };
    if n <= 55 {
        out.push(base + n as u8);
    } else {
        let lb = be_bytes_of(n);
        proof {
            lemma_len_be_usize(n);
        }
        out.push(base + 55 + lb.len() as u8);
        out.extend_from_slice(lb.as_slice());
        proof {
            assert(final(out)@ =~= old(out)@ + rlp_header_spec(is_list, n as nat));
        }
    }
}

/// Append the encoding of the byte string `s`.
pub fn encode_str(out: &mut Vec<u8>, s: &[u8])
    ensures
        final(out)@ == old(out)@ + rlp_str_spec(s@),
{
    if s.len() == 1 && s[0] < 0x80 {
        out.push(s[0]);
        proof {
            assert(final(out)@ =~= old(out)@ + rlp_str_spec(s@));
        }
    } else {
        encode_header(out, false, s.len());
        out.extend_from_slice(s);
        proof {
            assert(final(out)@ =~= old(out)@ + rlp_str_spec(s@));
        }
    }
}

proof fn lemma_trim_zeros_skip(s: Seq<u8>, k: int)
    requires
        0 <= k <= s.len(),
        forall|j: int| 0 <= j < k ==> s[j] == 0,
        k == s.len() || s[k] != 0,
    ensures
        trim_zeros(s) == s.skip(k),
    decreases k,
{
    if k == 0 {
        assert(s.skip(0) =~= s);
    } else {
        assert(s[0] == 0);
        lemma_trim_zeros_skip(s.skip(1), k - 1);
        assert(s.skip(1).skip(k - 1) =~= s.skip(k));
    }
}

/// Append the encoding of an unsigned value given in big-endian bytes: the
/// leading zeros are trimmed and the rest is encoded as a string.
pub fn encode_uint_be(out: &mut Vec<u8>, be: &[u8])
    ensures
        final(out)@ == old(out)@ + rlp_str_spec(trim_zeros(be@)),
{
    let n: usize = be.len();
    let mut k: usize = 0;
    while k < n && be[k] == 0
        invariant
            0 <= k <= n,
            n == be@.len(),
            forall|j: int| 0 <= j < k ==> be@[j] == 0,
        decreases n - k,
    {
        k = k + 1;
    }
    proof {
        lemma_trim_zeros_skip(be@, k as int);
    }
    encode_str(out, &be[k..be.len()]);
}

/// The 8-byte big-endian form of a `u64`, as an array.
fn u64_be_array(v: u64) -> (r: [u8; 8])
    ensures
        r@ == u64_be_seq(v),
{
    let mut a = [0u8; 8];
    let mut i: usize = 0;
    while i < 8
        invariant
            i <= 8,
            a@.len() == 8,
            forall|j: int| 0 <= j < i ==> a@[j] == u64_byte(v, j),
        decreases 8 - i,
    {
        a[i] = ((v >> (((7 - i) * 8) as u64)) & 0xff) as u8;
        i = i + 1;
    }
    proof {
        assert(a@ =~= u64_be_seq(v));
    }
    a
}

/// The 16-byte big-endian form of a `u128`, as an array.
fn u128_be_array(v: u128) -> (r: [u8; 16])
    ensures
        r@ == u128_be_seq(v),
{
    let mut a = [0u8; 16];
    let mut i: usize = 0;
    while i < 16
        invariant
            i <= 16,
            a@.len() == 16,
            forall|j: int| 0 <= j < i ==> a@[j] == u128_byte(v, j),
        decreases 16 - i,
    {
        a[i] = ((v >> (((15 - i) * 8) as u128)) & 0xff) as u8;
        i = i + 1;
    }
    proof {
        assert(a@ =~= u128_be_seq(v));
    }
    a
}

/// The 32-byte big-endian form of a 256-bit value, as an array.
fn u256_be_array(v: &U256) -> (r: [u8; 32])
    ensures
        r@ == v.be_bytes(),
{
    let mut a = [0u8; 32];
    let mut i: usize = 0;
    while i < 16
        invariant
            i <= 16,
            a@.len() == 32,
            forall|j: int| 0 <= j < i ==> a@[j] == u128_byte(v.hi, j),
        decreases 16 - i,
    {
        a[i] = ((v.hi >> (((15 - i) * 8) as u128)) & 0xff) as u8;
        i = i + 1;
    }
    let mut i: usize = 0;
    while i < 16
        invariant
            i <= 16,
            a@.len() == 32,
            forall|j: int| 0 <= j < 16 ==> a@[j] == u128_byte(v.hi, j),
            forall|j: int| 16 <= j < 16 + i ==> a@[j] == u128_byte(v.lo, j - 16),
        decreases 16 - i,
    {
        a[16 + i] = ((v.lo >> (((15 - i) * 8) as u128)) & 0xff) as u8;
        i = i + 1;
    }
    proof {
        assert(a@ =~= v.be_bytes());
    }
    a
}

/// Append the encoding of a `u64`.
pub fn encode_u64(out: &mut Vec<u8>, v: u64)
    ensures
        final(out)@ == old(out)@ + rlp_u64_spec(v),
{
    let be = u64_be_array(v);
    encode_uint_be(out, be.as_slice());
}

/// Append the encoding of a `u128`.
pub fn encode_u128(out: &mut Vec<u8>, v: u128)
    ensures
        final(out)@ == old(out)@ + rlp_u128_spec(v),
{
    let be = u128_be_array(v);
    encode_uint_be(out, be.as_slice());
}

/// Append the encoding of a 256-bit value.
pub fn encode_u256(out: &mut Vec<u8>, v: &U256)
    ensures
        final(out)@ == old(out)@ + rlp_u256_spec(*v),
{
    let be = u256_be_array(v);
    encode_uint_be(out, be.as_slice());
}

/// Append the encoding of a `bool`.
pub fn encode_bool(out: &mut Vec<u8>, v: bool)
    ensures
        final(out)@ == old(out)@ + rlp_bool_spec(v),
{
    if v {
        out.push(1u8);
    } else {
        out.push(0x80u8);
    }
    proof {
        assert(final(out)@ =~= old(out)@ + rlp_bool_spec(v));
    }
}

/// Append the concatenated encodings of the storage keys of one entry.
fn encode_keys(out: &mut Vec<u8>, keys: &Vec<[u8; 32]>)
    ensures
        final(out)@ == old(out)@ + concat_rlp_strs(keys@.map_values(|k: [u8; 32]| k@)),
{
    let ghost kv = keys@.map_values(|k: [u8; 32]| k@);
    let n: usize = keys.len();
    let mut i: usize = 0;
    while i < n
        invariant
            i <= n,
            n == keys@.len(),
            kv == keys@.map_values(|k: [u8; 32]| k@),
            out@ == old(out)@ + concat_rlp_strs(kv.take(i as int)),
        decreases n - i,
    {
        encode_str(out, keys[i].as_slice());
        proof {
            assert(kv.take(i + 1).drop_last() =~= kv.take(i as int));
            assert(kv.take(i + 1).last() == kv[i as int]);
            assert(out@ =~= old(out)@ + concat_rlp_strs(kv.take(i + 1)));
        }
        i = i + 1;
    }
    proof {
        assert(kv.take(n as int) =~= kv);
    }
}

/// Append the encoding of one access list entry.
fn encode_access_item(out: &mut Vec<u8>, it: &AccessListItem)
    ensures
        final(out)@ == old(out)@ + rlp_access_item_spec(
            (it.address@, it.storage_keys@.map_values(|k: [u8; 32]| k@)),
        ),
{
    let mut keys: Vec<u8> = Vec::new();
    encode_keys(&mut keys, &it.storage_keys);
    let mut payload: Vec<u8> = Vec::new();
    encode_str(&mut payload, it.address.as_slice());
    encode_header(&mut payload, true, keys.len());
    payload.extend_from_slice(keys.as_slice());
    encode_header(out, true, payload.len());
    out.extend_from_slice(payload.as_slice());
    proof {
        assert(final(out)@ =~= old(out)@ + rlp_access_item_spec(
            (it.address@, it.storage_keys@.map_values(|k: [u8; 32]| k@)),
        ));
    }
}

/// Append the encoding of an access list.
pub fn encode_access_list(out: &mut Vec<u8>, al: &AccessList)
    ensures
        final(out)@ == old(out)@ + rlp_access_list_spec(access_list_view(*al)),
{
    let ghost av = access_list_view(*al);
    let mut body: Vec<u8> = Vec::new();
    let n: usize = al.items.len();
    let mut i: usize = 0;
    while i < n
        invariant
            i <= n,
            n == al.items@.len(),
            av == access_list_view(*al),
            av.len() == n,
            body@ == concat_rlp_items(av.take(i as int)),
        decreases n - i,
    {
        encode_access_item(&mut body, &al.items[i]);
        proof {
            assert(av.take(i + 1).drop_last() =~= av.take(i as int));
            assert(av.take(i + 1).last() == av[i as int]);
            assert(av[i as int] == (
                al.items@[i as int].address@,
                al.items@[i as int].storage_keys@.map_values(|k: [u8; 32]| k@),
            ));
            assert(body@ =~= concat_rlp_items(av.take(i + 1)));
        }
        i = i + 1;
    }
    proof {
        assert(av.take(n as int) =~= av);
    }
    encode_header(out, true, body.len());
    out.extend_from_slice(body.as_slice());
    proof {
        assert(final(out)@ =~= old(out)@ + rlp_access_list_spec(av));
    }
}

/// Append the encodings of the fields of an encrypted transaction, in wire
/// order, without a list header.
#[verifier::rlimit(60)]
pub fn encode_fields(tx: &TxDawnEncrypted, out: &mut Vec<u8>)
    ensures
        final(out)@ == old(out)@ + tx_fields_rlp(*tx),
{
    encode_u64(out, tx.chain_id);
    encode_u64(out, tx.nonce);
    encode_u128(out, tx.max_priority_fee_per_gas);
    encode_u128(out, tx.max_fee_per_gas);
    encode_u64(out, tx.gas_limit);
    encode_u256(out, &tx.value);
    encode_access_list(out, &tx.access_list);
    let u = tx.ciphertext.u.to_bytes();
    encode_str(out, u.as_slice());
    encode_str(out, tx.ciphertext.payload.as_slice());
    encode_str(out, tx.ciphertext.tag.as_slice());
    proof {
        assert(final(out)@ =~= old(out)@ + tx_fields_rlp(*tx));
    }
}

/// The byte length of the encoded fields of an encrypted transaction.
pub fn fields_len(tx: &TxDawnEncrypted) -> (r: usize)
    ensures
        r == tx_fields_rlp(*tx).len(),
{
    let mut buf: Vec<u8> = Vec::new();
    encode_fields(tx, &mut buf);
    buf.len()
}

/// A fresh copy of `buf[start..end]`.
fn copy_range(buf: &[u8], start: usize, end: usize) -> (r: Vec<u8>)
    requires
        start <= end <= buf@.len(),
    ensures
        r@ == buf@.subrange(start as int, end as int),
{
    let mut v: Vec<u8> = Vec::new();
    let mut i: usize = start;
    while i < end
        invariant
            start <= i <= end,
            end <= buf@.len(),
            v@.len() == i - start,
            forall|j: int| 0 <= j < v@.len() ==> v@[j] == buf@[start + j],
        decreases end - i,
    {
        v.push(buf[i]);
        i = i + 1;
    }
    proof {
        assert(v@ =~= buf@.subrange(start as int, end as int));
    }
    v
}

/// Parse one string item at `pos`: its payload bytes and the position after
/// it. Structurally generous on malformed input (canonicity is enforced by
/// the callers, which re-encode and compare), but exact on canonical input:
/// a buffer carrying an encoded string yields that string's payload.
fn parse_str(buf: &[u8], pos: usize) -> (r: Option<(Vec<u8>, usize)>)
    requires
        pos <= buf@.len(),
    ensures
        r matches Some((v, p)) ==> pos < p <= buf@.len(),
        forall|s0: Seq<u8>| #[trigger] is_prefix(rlp_str_spec(s0), buf@.skip(pos as int))
            ==> (r matches Some(x) && x.0@ == s0 && x.1 == pos + rlp_str_spec(s0).len()),
{
    let glen: usize = buf.len();
    if pos >= glen {
        proof {
            assert forall|s0: Seq<u8>| #[trigger] is_prefix(
                rlp_str_spec(s0),
                buf@.skip(pos as int),
            ) implies false by {
                lemma_rlp_str_at(s0, buf@, pos as int);
            }
        }
        return None;
    }
    let b = buf[pos];
    if b < 0x80 {
        let mut v: Vec<u8> = Vec::new();
        v.push(b);
        proof {
            assert forall|s0: Seq<u8>| #[trigger] is_prefix(
                rlp_str_spec(s0),
                buf@.skip(pos as int),
            ) implies v@ == s0 && pos + 1 == pos + rlp_str_spec(s0).len() by {
                lemma_rlp_str_at(s0, buf@, pos as int);
                assert(s0.len() == 1 && s0[0] < 0x80);
                assert(v@ =~= s0);
            }
        }
        Some((v, pos + 1))
    } else if b <= 0xb7 {
        let l = (b - 0x80) as usize;
        let rem = glen - pos - 1;
        if l > rem {
            proof {
                assert forall|s0: Seq<u8>| #[trigger] is_prefix(
                    rlp_str_spec(s0),
                    buf@.skip(pos as int),
                ) implies false by {
                    lemma_rlp_str_at(s0, buf@, pos as int);
                }
            }
            return None;
        }
        let v = copy_range(buf, pos + 1, pos + 1 + l);
        proof {
            assert forall|s0: Seq<u8>| #[trigger] is_prefix(
                rlp_str_spec(s0),
                buf@.skip(pos as int),
            ) implies v@ == s0 && pos + 1 + l == pos + rlp_str_spec(s0).len() by {
                lemma_rlp_str_at(s0, buf@, pos as int);
                assert(s0.len() == l);
                assert(v@ =~= s0);
            }
        }
        Some((v, pos + 1 + l))
    } else if b <= 0xbf {
        let ll = (b - 0xb7) as usize;
        let rem = glen - pos - 1;
        if ll > rem || ll > 8 {
            proof {
                assert forall|s0: Seq<u8>| #[trigger] is_prefix(
                    rlp_str_spec(s0),
                    buf@.skip(pos as int),
                ) implies false by {
                    lemma_rlp_str_at(s0, buf@, pos as int);
                }
            }
            return None;
        }
        let mut l: u64 = 0;
        let mut i: usize = 0;
        while i < ll
            invariant
                i <= ll,
                ll <= 8,
                pos + 1 + ll <= buf@.len(),
                pos + 1 + ll <= usize::MAX,
                l == be_value(buf@.subrange(pos + 1, pos + 1 + i)),
                l < pow256(i as nat),
            decreases ll - i,
        {
            proof {
                lemma_pow256_increases(i as nat, 7);
                lemma_pow256_values();
                assert(buf@.subrange(pos + 1, pos + 1 + i + 1).drop_last() =~= buf@.subrange(
                    pos + 1,
                    pos + 1 + i,
                ));
                assert(buf@.subrange(pos + 1, pos + 1 + i + 1).last() == buf@[pos + 1 + i]);
            }
            l = l * 256 + (buf[pos + 1 + i] as u64);
            i = i + 1;
        }
        let rem2 = rem - ll;
        if l > rem2 as u64 {
            proof {
                assert forall|s0: Seq<u8>| #[trigger] is_prefix(
                    rlp_str_spec(s0),
                    buf@.skip(pos as int),
                ) implies false by {
                    lemma_rlp_str_at(s0, buf@, pos as int);
                    assert(l == s0.len());
                }
            }
            return None;
        }
        let l = l as usize;
        let v = copy_range(buf, pos + 1 + ll, pos + 1 + ll + l);
        proof {
            assert forall|s0: Seq<u8>| #[trigger] is_prefix(
                rlp_str_spec(s0),
                buf@.skip(pos as int),
            ) implies v@ == s0 && pos + 1 + ll + l == pos + rlp_str_spec(s0).len() by {
                lemma_rlp_str_at(s0, buf@, pos as int);
                assert(l == s0.len());
                assert(v@ =~= s0);
            }
        }
        Some((v, pos + 1 + ll + l))
    } else {
        proof {
            assert forall|s0: Seq<u8>| #[trigger] is_prefix(
                rlp_str_spec(s0),
                buf@.skip(pos as int),
            ) implies false by {
                lemma_rlp_str_at(s0, buf@, pos as int);
            }
        }
        None
    }
}

/// Parse one list header at `pos`: the payload length and the position of
/// the payload. Structurally generous on malformed input, exact on a
/// canonical header whose payload is present.
fn parse_list_header(buf: &[u8], pos: usize) -> (r: Option<(usize, usize)>)
    requires
        pos <= buf@.len(),
    ensures
        r matches Some((l, p)) ==> pos < p && p + l <= buf@.len() && buf@.len() <= usize::MAX,
        forall|n: nat, body: Seq<u8>|
            body.len() == n && #[trigger] is_prefix(
                rlp_header_spec(true, n) + body,
                buf@.skip(pos as int),
            ) ==> (r matches Some(x) && x.0 == n && x.1 == pos + rlp_header_spec(true, n).len()),
{
    let glen: usize = buf.len();
    if pos >= glen {
        proof {
            assert forall|n: nat, body: Seq<u8>|
                body.len() == n && #[trigger] is_prefix(
                    rlp_header_spec(true, n) + body,
                    buf@.skip(pos as int),
                ) implies false by {
                lemma_rlp_list_header_at(n, body, buf@, pos as int);
            }
        }
        return None;
    }
    let b = buf[pos];
    if b < 0xc0 {
        proof {
            assert forall|n: nat, body: Seq<u8>|
                body.len() == n && #[trigger] is_prefix(
                    rlp_header_spec(true, n) + body,
                    buf@.skip(pos as int),
                ) implies false by {
                lemma_rlp_list_header_at(n, body, buf@, pos as int);
            }
        }
        None
    } else if b <= 0xf7 {
        let l = (b - 0xc0) as usize;
        let rem = glen - pos - 1;
        if l > rem {
            proof {
                assert forall|n: nat, body: Seq<u8>|
                    body.len() == n && #[trigger] is_prefix(
                        rlp_header_spec(true, n) + body,
                        buf@.skip(pos as int),
                    ) implies false by {
                    lemma_rlp_list_header_at(n, body, buf@, pos as int);
                }
            }
            return None;
        }
        proof {
            assert forall|n: nat, body: Seq<u8>|
                body.len() == n && #[trigger] is_prefix(
                    rlp_header_spec(true, n) + body,
                    buf@.skip(pos as int),
                ) implies l == n && pos + 1 == pos + rlp_header_spec(true, n).len() by {
                lemma_rlp_list_header_at(n, body, buf@, pos as int);
            }
        }
        Some((l, pos + 1))
    } else {
        let ll = (b - 0xf7) as usize;
        let rem = glen - pos - 1;
        if ll > rem || ll > 8 {
            proof {
                assert forall|n: nat, body: Seq<u8>|
                    body.len() == n && #[trigger] is_prefix(
                        rlp_header_spec(true, n) + body,
                        buf@.skip(pos as int),
                    ) implies false by {
                    lemma_rlp_list_header_at(n, body, buf@, pos as int);
                }
            }
            return None;
        }
        let mut l: u64 = 0;
        let mut i: usize = 0;
        while i < ll
            invariant
                i <= ll,
                ll <= 8,
                pos + 1 + ll <= buf@.len(),
                pos + 1 + ll <= usize::MAX,
                l == be_value(buf@.subrange(pos + 1, pos + 1 + i)),
                l < pow256(i as nat),
            decreases ll - i,
        {
            proof {
                lemma_pow256_increases(i as nat, 7);
                lemma_pow256_values();
                assert(buf@.subrange(pos + 1, pos + 1 + i + 1).drop_last() =~= buf@.subrange(
                    pos + 1,
                    pos + 1 + i,
                ));
                assert(buf@.subrange(pos + 1, pos + 1 + i + 1).last() == buf@[pos + 1 + i]);
            }
            l = l * 256 + (buf[pos + 1 + i] as u64);
            i = i + 1;
        }
        let rem2 = rem - ll;
        if l > rem2 as u64 {
            proof {
                assert forall|n: nat, body: Seq<u8>|
                    body.len() == n && #[trigger] is_prefix(
                        rlp_header_spec(true, n) + body,
                        buf@.skip(pos as int),
                    ) implies false by {
                    lemma_rlp_list_header_at(n, body, buf@, pos as int);
                    assert(l == n);
                }
            }
            return None;
        }
        proof {
            assert forall|n: nat, body: Seq<u8>|
                body.len() == n && #[trigger] is_prefix(
                    rlp_header_spec(true, n) + body,
                    buf@.skip(pos as int),
                ) implies l == n && pos + 1 + ll == pos + rlp_header_spec(true, n).len() by {
                lemma_rlp_list_header_at(n, body, buf@, pos as int);
            }
        }
        Some((l as usize, pos + 1 + ll))
    }
}

/// Parse a `u64` field at `pos`: the consumed bytes are exactly the
/// canonical encoding of the returned value, and a canonical encoding is
/// always accepted.
fn parse_u64_field(buf: &[u8], pos: usize) -> (r: Option<(u64, usize)>)
    requires
        pos <= buf@.len(),
    ensures
        r matches Some((v, p)) ==> pos < p <= buf@.len() && buf@.subrange(pos as int, p as int)
            == rlp_u64_spec(v),
        forall|v: u64| #[trigger] is_prefix(rlp_u64_spec(v), buf@.skip(pos as int)) ==> (
        r matches Some(x) && x.0 == v && x.1 == pos + rlp_u64_spec(v).len()),
{
    let parsed = parse_str(buf, pos);
    let (payload, p) = match parsed {
        Some(x) => x,
        None => {
            proof {
                assert forall|v: u64| #[trigger] is_prefix(
                    rlp_u64_spec(v),
                    buf@.skip(pos as int),
                ) implies false by {
                    assert(is_prefix(
                        rlp_str_spec(trim_zeros(u64_be_seq(v))),
                        buf@.skip(pos as int),
                    ));
                }
            }
            return None;
        },
    };
    if payload.len() > 8 {
        proof {
            assert forall|v: u64| #[trigger] is_prefix(
                rlp_u64_spec(v),
                buf@.skip(pos as int),
            ) implies false by {
                assert(is_prefix(rlp_str_spec(trim_zeros(u64_be_seq(v))), buf@.skip(pos as int)));
                lemma_u64_field_value(v, trim_zeros(u64_be_seq(v)));
            }
        }
        return None;
    }
    let mut w: u64 = 0;
    let mut i: usize = 0;
    while i < payload.len()
        invariant
            i <= payload@.len(),
            payload@.len() <= 8,
            w == be_value(payload@.take(i as int)),
            w < pow256(i as nat),
        decreases payload@.len() - i,
    {
        proof {
            lemma_pow256_increases(i as nat, 7);
            lemma_pow256_values();
            assert(payload@.take(i + 1).drop_last() =~= payload@.take(i as int));
            assert(payload@.take(i + 1).last() == payload@[i as int]);
        }
        w = w * 256 + (payload[i] as u64);
        i = i + 1;
    }
    proof {
        assert(payload@.take(payload@.len() as int) =~= payload@);
    }
    let mut tmp: Vec<u8> = Vec::new();
    encode_u64(&mut tmp, w);
    if !crate::bytes_eq(tmp.as_slice(), &buf[pos..p]) {
        proof {
            assert forall|v: u64| #[trigger] is_prefix(
                rlp_u64_spec(v),
                buf@.skip(pos as int),
            ) implies false by {
                assert(is_prefix(rlp_str_spec(trim_zeros(u64_be_seq(v))), buf@.skip(pos as int)));
                lemma_u64_field_value(v, trim_zeros(u64_be_seq(v)));
                lemma_prefix_slice(rlp_u64_spec(v), buf@, pos as int);
            }
        }
        return None;
    }
    proof {
        assert forall|v: u64| #[trigger] is_prefix(
            rlp_u64_spec(v),
            buf@.skip(pos as int),
        ) implies w == v && p == pos + rlp_u64_spec(v).len() by {
            assert(is_prefix(rlp_str_spec(trim_zeros(u64_be_seq(v))), buf@.skip(pos as int)));
            lemma_u64_field_value(v, trim_zeros(u64_be_seq(v)));
        }
    }
    Some((w, p))
}

/// Parse a `u128` field at `pos`.
fn parse_u128_field(buf: &[u8], pos: usize) -> (r: Option<(u128, usize)>)
    requires
        pos <= buf@.len(),
    ensures
        r matches Some((v, p)) ==> pos < p <= buf@.len() && buf@.subrange(pos as int, p as int)
            == rlp_u128_spec(v),
        forall|v: u128| #[trigger] is_prefix(rlp_u128_spec(v), buf@.skip(pos as int)) ==> (
        r matches Some(x) && x.0 == v && x.1 == pos + rlp_u128_spec(v).len()),
{
    let parsed = parse_str(buf, pos);
    let (payload, p) = match parsed {
        Some(x) => x,
        None => {
            proof {
                assert forall|v: u128| #[trigger] is_prefix(
                    rlp_u128_spec(v),
                    buf@.skip(pos as int),
                ) implies false by {
                    assert(is_prefix(
                        rlp_str_spec(trim_zeros(u128_be_seq(v))),
                        buf@.skip(pos as int),
                    ));
                }
            }
            return None;
        },
    };
    if payload.len() > 16 {
        proof {
            assert forall|v: u128| #[trigger] is_prefix(
                rlp_u128_spec(v),
                buf@.skip(pos as int),
            ) implies false by {
                assert(is_prefix(rlp_str_spec(trim_zeros(u128_be_seq(v))), buf@.skip(pos as int)));
                lemma_u128_field_value(v, trim_zeros(u128_be_seq(v)));
            }
        }
        return None;
    }
    let mut w: u128 = 0;
    let mut i: usize = 0;
    while i < payload.len()
        invariant
            i <= payload@.len(),
            payload@.len() <= 16,
            w == be_value(payload@.take(i as int)),
            w < pow256(i as nat),
        decreases payload@.len() - i,
    {
        proof {
            lemma_pow256_increases(i as nat, 15);
            lemma_pow256_values();
            assert(payload@.take(i + 1).drop_last() =~= payload@.take(i as int));
            assert(payload@.take(i + 1).last() == payload@[i as int]);
        }
        w = w * 256 + (payload[i] as u128);
        i = i + 1;
    }
    proof {
        assert(payload@.take(payload@.len() as int) =~= payload@);
    }
    let mut tmp: Vec<u8> = Vec::new();
    encode_u128(&mut tmp, w);
    if !crate::bytes_eq(tmp.as_slice(), &buf[pos..p]) {
        proof {
            assert forall|v: u128| #[trigger] is_prefix(
                rlp_u128_spec(v),
                buf@.skip(pos as int),
            ) implies false by {
                assert(is_prefix(rlp_str_spec(trim_zeros(u128_be_seq(v))), buf@.skip(pos as int)));
                lemma_u128_field_value(v, trim_zeros(u128_be_seq(v)));
                lemma_prefix_slice(rlp_u128_spec(v), buf@, pos as int);
            }
        }
        return None;
    }
    proof {
        assert forall|v: u128| #[trigger] is_prefix(
            rlp_u128_spec(v),
            buf@.skip(pos as int),
        ) implies w == v && p == pos + rlp_u128_spec(v).len() by {
            assert(is_prefix(rlp_str_spec(trim_zeros(u128_be_seq(v))), buf@.skip(pos as int)));
            lemma_u128_field_value(v, trim_zeros(u128_be_seq(v)));
        }
    }
    Some((w, p))
}

/// Parse a 256-bit field at `pos`.
fn parse_u256_field(buf: &[u8], pos: usize) -> (r: Option<(U256, usize)>)
    requires
        pos <= buf@.len(),
    ensures
        r matches Some((v, p)) ==> pos < p <= buf@.len() && buf@.subrange(pos as int, p as int)
            == rlp_u256_spec(v),
        forall|v: U256| #[trigger] is_prefix(rlp_u256_spec(v), buf@.skip(pos as int)) ==> (
        r matches Some(x) && x.0 == v && x.1 == pos + rlp_u256_spec(v).len()),
{
    let parsed = parse_str(buf, pos);
    let (payload, p) = match parsed {
        Some(x) => x,
        None => {
            proof {
                assert forall|v: U256| #[trigger] is_prefix(
                    rlp_u256_spec(v),
                    buf@.skip(pos as int),
                ) implies false by {
                    assert(is_prefix(
                        rlp_str_spec(trim_zeros(v.be_bytes())),
                        buf@.skip(pos as int),
                    ));
                }
            }
            return None;
        },
    };
    if payload.len() > 32 {
        proof {
            assert forall|v: U256| #[trigger] is_prefix(
                rlp_u256_spec(v),
                buf@.skip(pos as int),
            ) implies false by {
                assert(is_prefix(rlp_str_spec(trim_zeros(v.be_bytes())), buf@.skip(pos as int)));
                lemma_trim_len(v.be_bytes());
            }
        }
        return None;
    }
    let off: usize = 32 - payload.len();
    let mut pad = [0u8; 32];
    let mut i: usize = 0;
    while i < payload.len()
        invariant
            i <= payload@.len(),
            payload@.len() <= 32,
            off == 32 - payload@.len(),
            pad@.len() == 32,
            forall|j: int| 0 <= j < off ==> pad@[j] == 0,
            forall|j: int| off <= j < off + i ==> pad@[j] == payload@[j - off],
            forall|j: int| off + i <= j < 32 ==> pad@[j] == 0,
        decreases payload@.len() - i,
    {
        pad[off + i] = payload[i];
        i = i + 1;
    }
    proof {
        assert(pad@ =~= zero_bytes(off as nat) + payload@);
    }
    let mut hi: u128 = 0;
    let mut i: usize = 0;
    while i < 16
        invariant
            i <= 16,
            pad@.len() == 32,
            hi == be_value(pad@.take(i as int)),
            hi < pow256(i as nat),
        decreases 16 - i,
    {
        proof {
            lemma_pow256_increases(i as nat, 15);
            lemma_pow256_values();
            assert(pad@.take(i + 1).drop_last() =~= pad@.take(i as int));
            assert(pad@.take(i + 1).last() == pad@[i as int]);
        }
        hi = hi * 256 + (pad[i] as u128);
        i = i + 1;
    }
    let mut lo: u128 = 0;
    let mut i: usize = 16;
    while i < 32
        invariant
            16 <= i <= 32,
            pad@.len() == 32,
            lo == be_value(pad@.subrange(16, i as int)),
            lo < pow256((i - 16) as nat),
        decreases 32 - i,
    {
        proof {
            lemma_pow256_increases((i - 16) as nat, 15);
            lemma_pow256_values();
            assert(pad@.subrange(16, i + 1).drop_last() =~= pad@.subrange(16, i as int));
            assert(pad@.subrange(16, i + 1).last() == pad@[i as int]);
        }
        lo = lo * 256 + (pad[i] as u128);
        i = i + 1;
    }
    let v = U256 { hi, lo };
    let mut tmp: Vec<u8> = Vec::new();
    encode_u256(&mut tmp, &v);
    if !crate::bytes_eq(tmp.as_slice(), &buf[pos..p]) {
        proof {
            assert forall|v0: U256| #[trigger] is_prefix(
                rlp_u256_spec(v0),
                buf@.skip(pos as int),
            ) implies false by {
                assert(is_prefix(rlp_str_spec(trim_zeros(v0.be_bytes())), buf@.skip(pos as int)));
                lemma_u256_field_value(v0, trim_zeros(v0.be_bytes()));
                lemma_prefix_slice(rlp_u256_spec(v0), buf@, pos as int);
            }
        }
        return None;
    }
    proof {
        assert forall|v0: U256| #[trigger] is_prefix(
            rlp_u256_spec(v0),
            buf@.skip(pos as int),
        ) implies v == v0 && p == pos + rlp_u256_spec(v0).len() by {
            assert(is_prefix(rlp_str_spec(trim_zeros(v0.be_bytes())), buf@.skip(pos as int)));
            lemma_u256_field_value(v0, trim_zeros(v0.be_bytes()));
        }
    }
    Some((v, p))
}

/// The well-formed views of one access list entry: a 20-byte address and
/// 32-byte storage keys.
pub open spec fn item_view_wf(iv: (Seq<u8>, Seq<Seq<u8>>)) -> bool {
    iv.0.len() == 20 && (forall|j: int| 0 <= j < iv.1.len() ==> (#[trigger] iv.1[j]).len() == 32)
}

/// An entry with view `iv` is encoded at `pos`.
spec fn item_match(iv: (Seq<u8>, Seq<Seq<u8>>), b: Seq<u8>, pos: int) -> bool {
    item_view_wf(iv) && is_prefix(rlp_access_item_spec(iv), b.skip(pos))
}

/// The storage keys of one entry are encoded back to back on
/// `kstart..kend`.
spec fn keys_match(ks: Seq<Seq<u8>>, b: Seq<u8>, kstart: int, kend: int) -> bool {
    &&& forall|j: int| 0 <= j < ks.len() ==> (#[trigger] ks[j]).len() == 32
    &&& concat_rlp_strs(ks).len() == kend - kstart
    &&& is_prefix(concat_rlp_strs(ks), b.skip((kstart) as int))
}

/// Parse the storage keys encoded on `kstart..kend`. Structurally generous;
/// exact on a canonical run of 32-byte strings.
fn parse_keys(buf: &[u8], kstart: usize, kend: usize) -> (r: Option<Vec<[u8; 32]>>)
    requires
        kstart <= kend <= buf@.len(),
    ensures
        forall|ks: Seq<Seq<u8>>| #[trigger] keys_match(ks, buf@, kstart as int, kend as int)
            ==> (r matches Some(v) && v@.map_values(|k: [u8; 32]| k@) == ks),
{
    let mut keys: Vec<[u8; 32]> = Vec::new();
    let mut q: usize = kstart;
    proof {
        assert forall|ks: Seq<Seq<u8>>| #[trigger] keys_match(
            ks,
            buf@,
            kstart as int,
            kend as int,
        ) implies keys@.map_values(|k: [u8; 32]| k@) == ks.take(0) && kstart == kstart
            + concat_rlp_strs(ks.take(0)).len() by {
            assert(ks.take(0) =~= Seq::<Seq<u8>>::empty());
            assert(keys@.map_values(|k: [u8; 32]| k@) =~= Seq::<Seq<u8>>::empty());
        }
    }
    while q < kend
        invariant
            kstart <= q <= kend <= buf@.len(),
            forall|ks: Seq<Seq<u8>>| #[trigger] keys_match(ks, buf@, kstart as int, kend as int)
                ==> ({
                let j = keys@.len() as int;
                &&& j <= ks.len()
                &&& keys@.map_values(|k: [u8; 32]| k@) == ks.take(j)
                &&& q == kstart + concat_rlp_strs(ks.take(j)).len()
            }),
        decreases kend - q,
    {
        proof {
            assert forall|ks: Seq<Seq<u8>>| #[trigger] keys_match(
                ks,
                buf@,
                kstart as int,
                kend as int,
            ) implies ({
                let j = keys@.len() as int;
                &&& j < ks.len()
                &&& is_prefix(rlp_str_spec(ks[j]), buf@.skip(q as int))
                &&& q + rlp_str_spec(ks[j]).len() <= kend
            }) by {
                let j = keys@.len() as int;
                if j == ks.len() {
                    assert(ks.take(j) =~= ks);
                    assert(false);
                }
                lemma_concat_strs_take_succ(ks, j);
                lemma_concat_strs_prefix(ks, j + 1);
                lemma_prefix_trans(
                    concat_rlp_strs(ks.take(j + 1)),
                    concat_rlp_strs(ks),
                    buf@.skip(kstart as int),
                );
                lemma_prefix_skip(
                    concat_rlp_strs(ks.take(j)),
                    rlp_str_spec(ks[j]),
                    buf@.skip(kstart as int),
                );
                assert(buf@.skip(kstart as int).skip(concat_rlp_strs(ks.take(j)).len() as int)
                    =~= buf@.skip(q as int));
            }
        }
        let parsed = parse_str(buf, q);
        let (key_payload, q2) = match parsed {
            Some(x) => x,
            None => {
                return None;
            },
        };
        if key_payload.len() != 32 {
            return None;
        }
        if q2 > kend {
            return None;
        }
        let mut key = [0u8; 32];
        let mut i: usize = 0;
        while i < 32
            invariant
                i <= 32,
                key_payload@.len() == 32,
                key@.len() == 32,
                forall|j: int| 0 <= j < i ==> key@[j] == key_payload@[j],
            decreases 32 - i,
        {
            key[i] = key_payload[i];
            i = i + 1;
        }
        proof {
            assert(key@ =~= key_payload@);
        }
        let ghost old_keys = keys@;
        keys.push(key);
        proof {
            assert forall|ks: Seq<Seq<u8>>| #[trigger] keys_match(
                ks,
                buf@,
                kstart as int,
                kend as int,
            ) implies ({
                let j = keys@.len() as int;
                &&& j <= ks.len()
                &&& keys@.map_values(|k: [u8; 32]| k@) == ks.take(j)
                &&& q2 == kstart + concat_rlp_strs(ks.take(j)).len()
            }) by {
                let j0 = old_keys.len() as int;
                lemma_concat_strs_take_succ(ks, j0);
                assert(key_payload@ == ks[j0]);
                assert(keys@.map_values(|k: [u8; 32]| k@) =~= ks.take(j0 + 1));
            }
        }
        q = q2;
    }
    proof {
        assert forall|ks: Seq<Seq<u8>>| #[trigger] keys_match(
            ks,
            buf@,
            kstart as int,
            kend as int,
        ) implies keys@.map_values(|k: [u8; 32]| k@) == ks by {
            let j = keys@.len() as int;
            if j < ks.len() {
                lemma_concat_strs_take_succ(ks, j);
                lemma_concat_strs_prefix(ks, j + 1);
                assert(concat_rlp_strs(ks.take(j + 1)).len() <= concat_rlp_strs(ks).len());
                assert(rlp_str_spec(ks[j]).len() >= 1);
                assert(false);
            }
            assert(ks.take(j) =~= ks);
        }
    }
    Some(keys)
}

/// Parse one access list entry at `pos`. Structurally generous; exact on a
/// canonical entry.
fn parse_access_item(buf: &[u8], pos: usize) -> (r: Option<(AccessListItem, usize)>)
    requires
        pos <= buf@.len(),
    ensures
        r matches Some((it, p)) ==> pos < p <= buf@.len(),
        forall|iv: (Seq<u8>, Seq<Seq<u8>>)| #[trigger] item_match(iv, buf@, pos as int) ==> (
        r matches Some(x) && (x.0.address@, x.0.storage_keys@.map_values(|k: [u8; 32]| k@)) == iv
            && x.1 == pos + rlp_access_item_spec(iv).len()),
{
    let parsed = parse_list_header(buf, pos);
    let (l, start) = match parsed {
        Some(x) => x,
        None => {
            proof {
                assert forall|iv: (Seq<u8>, Seq<Seq<u8>>)| #[trigger] item_match(
                    iv,
                    buf@,
                    pos as int,
                ) implies false by {
                    lemma_item_shape(iv, buf@, pos as int);
                }
            }
            return None;
        },
    };
    let end = start + l;
    let parsed_addr = parse_str(buf, start);
    let (addr_payload, q1) = match parsed_addr {
        Some(x) => x,
        None => {
            proof {
                assert forall|iv: (Seq<u8>, Seq<Seq<u8>>)| #[trigger] item_match(
                    iv,
                    buf@,
                    pos as int,
                ) implies false by {
                    lemma_item_shape(iv, buf@, pos as int);
                }
            }
            return None;
        },
    };
    if addr_payload.len() != 20 || q1 > end {
        proof {
            assert forall|iv: (Seq<u8>, Seq<Seq<u8>>)| #[trigger] item_match(
                iv,
                buf@,
                pos as int,
            ) implies false by {
                lemma_item_shape(iv, buf@, pos as int);
            }
        }
        return None;
    }
    let mut address = [0u8; 20];
    let mut i: usize = 0;
    while i < 20
        invariant
            i <= 20,
            addr_payload@.len() == 20,
            address@.len() == 20,
            forall|j: int| 0 <= j < i ==> address@[j] == addr_payload@[j],
        decreases 20 - i,
    {
        address[i] = addr_payload[i];
        i = i + 1;
    }
    proof {
        assert(address@ =~= addr_payload@);
    }
    let parsed_keys_header = parse_list_header(buf, q1);
    let (kl, kstart) = match parsed_keys_header {
        Some(x) => x,
        None => {
            proof {
                assert forall|iv: (Seq<u8>, Seq<Seq<u8>>)| #[trigger] item_match(
                    iv,
                    buf@,
                    pos as int,
                ) implies false by {
                    lemma_item_shape(iv, buf@, pos as int);
                }
            }
            return None;
        },
    };
    let kend = kstart + kl;
    if kend != end {
        proof {
            assert forall|iv: (Seq<u8>, Seq<Seq<u8>>)| #[trigger] item_match(
                iv,
                buf@,
                pos as int,
            ) implies false by {
                lemma_item_shape(iv, buf@, pos as int);
            }
        }
        return None;
    }
    let parsed_keys = parse_keys(buf, kstart, kend);
    let storage_keys = match parsed_keys {
        Some(x) => x,
        None => {
            proof {
                assert forall|iv: (Seq<u8>, Seq<Seq<u8>>)| #[trigger] item_match(
                    iv,
                    buf@,
                    pos as int,
                ) implies false by {
                    lemma_item_shape(iv, buf@, pos as int);
                    assert(keys_match(iv.1, buf@, kstart as int, kend as int));
                }
            }
            return None;
        },
    };
    proof {
        assert forall|iv: (Seq<u8>, Seq<Seq<u8>>)| #[trigger] item_match(
            iv,
            buf@,
            pos as int,
        ) implies (address@, storage_keys@.map_values(|k: [u8; 32]| k@)) == iv && end == pos
            + rlp_access_item_spec(iv).len() by {
            lemma_item_shape(iv, buf@, pos as int);
            assert(keys_match(iv.1, buf@, kstart as int, kend as int));
        }
    }
    Some((AccessListItem { address, storage_keys }, end))
}

/// The well-formed views of a whole access list.
pub open spec fn access_view_wf(items: Seq<(Seq<u8>, Seq<Seq<u8>>)>) -> bool {
    forall|i: int| 0 <= i < items.len() ==> item_view_wf(#[trigger] items[i])
}

/// An access list with the given views is encoded at `pos`.
spec fn list_match(items: Seq<(Seq<u8>, Seq<Seq<u8>>)>, b: Seq<u8>, pos: int) -> bool {
    access_view_wf(items) && is_prefix(rlp_access_list_spec(items), b.skip(pos))
}

/// Parse an access list field at `pos`: the consumed bytes are exactly the
/// encoding of the returned list, and a canonical encoding of a list is
/// always accepted.
fn parse_access_list_field(buf: &[u8], pos: usize) -> (r: Option<(AccessList, usize)>)
    requires
        pos <= buf@.len(),
    ensures
        r matches Some((al, p)) ==> pos < p <= buf@.len() && buf@.subrange(pos as int, p as int)
            == rlp_access_list_spec(access_list_view(al)),
        forall|items: Seq<(Seq<u8>, Seq<Seq<u8>>)>| #[trigger] list_match(items, buf@, pos as int)
            ==> (r matches Some(x) && access_list_view(x.0) == items && x.1 == pos
            + rlp_access_list_spec(items).len()),
{
    let parsed = parse_list_header(buf, pos);
    let (l, start) = match parsed {
        Some(x) => x,
        None => {
            proof {
                assert forall|items: Seq<(Seq<u8>, Seq<Seq<u8>>)>| #[trigger] list_match(
                    items,
                    buf@,
                    pos as int,
                ) implies false by {
                    lemma_list_shape(items, buf@, pos as int);
                }
            }
            return None;
        },
    };
    let end = start + l;
    proof {
        assert forall|its: Seq<(Seq<u8>, Seq<Seq<u8>>)>| #[trigger] list_match(
            its,
            buf@,
            pos as int,
        ) implies l == concat_rlp_items(its).len() && start == pos + rlp_header_spec(
            true,
            concat_rlp_items(its).len(),
        ).len() by {
            lemma_list_shape(its, buf@, pos as int);
        }
    }
    let mut items: Vec<AccessListItem> = Vec::new();
    let mut q: usize = start;
    proof {
        assert forall|its: Seq<(Seq<u8>, Seq<Seq<u8>>)>| #[trigger] list_match(
            its,
            buf@,
            pos as int,
        ) implies items_view(items@) == its.take(0) && q == start + concat_rlp_items(
            its.take(0),
        ).len() by {
            assert(its.take(0) =~= Seq::<(Seq<u8>, Seq<Seq<u8>>)>::empty());
            assert(items_view(items@) =~= Seq::<(Seq<u8>, Seq<Seq<u8>>)>::empty());
        }
    }
    while q < end
        invariant
            start <= q <= end <= buf@.len(),
            pos <= buf@.len(),
            forall|its: Seq<(Seq<u8>, Seq<Seq<u8>>)>| #[trigger] list_match(
                its,
                buf@,
                pos as int,
            ) ==> ({
                let j = items@.len() as int;
                &&& j <= its.len()
                &&& start == pos + rlp_header_spec(true, concat_rlp_items(its).len()).len()
                &&& end == start + concat_rlp_items(its).len()
                &&& items_view(items@) == its.take(j)
                &&& q == start + concat_rlp_items(its.take(j)).len()
            }),
        decreases end - q,
    {
        proof {
            assert forall|its: Seq<(Seq<u8>, Seq<Seq<u8>>)>| #[trigger] list_match(
                its,
                buf@,
                pos as int,
            ) implies ({
                let j = items@.len() as int;
                &&& j < its.len()
                &&& item_match(its[j], buf@, q as int)
                &&& q + rlp_access_item_spec(its[j]).len() <= end
            }) by {
                lemma_list_shape(its, buf@, pos as int);
                assert(is_prefix(concat_rlp_items(its), buf@.skip(start as int)));
                let j = items@.len() as int;
                if j == its.len() {
                    assert(its.take(j) =~= its);
                    assert(false);
                }
                lemma_concat_items_take_succ(its, j);
                lemma_concat_items_prefix(its, j + 1);
                lemma_prefix_trans(
                    concat_rlp_items(its.take(j + 1)),
                    concat_rlp_items(its),
                    buf@.skip(start as int),
                );
                lemma_prefix_skip(
                    concat_rlp_items(its.take(j)),
                    rlp_access_item_spec(its[j]),
                    buf@.skip(start as int),
                );
                assert(buf@.skip(start as int).skip(concat_rlp_items(its.take(j)).len() as int)
                    =~= buf@.skip(q as int));
            }
        }
        let parsed_item = parse_access_item(buf, q);
        let (it, q2) = match parsed_item {
            Some(x) => x,
            None => {
                return None;
            },
        };
        if q2 > end {
            return None;
        }
        let ghost old_items = items@;
        items.push(it);
        proof {
            assert forall|its: Seq<(Seq<u8>, Seq<Seq<u8>>)>| #[trigger] list_match(
                its,
                buf@,
                pos as int,
            ) implies ({
                let j = items@.len() as int;
                &&& j <= its.len()
                &&& items_view(items@) == its.take(j)
                &&& q2 == start + concat_rlp_items(its.take(j)).len()
            }) by {
                let j0 = old_items.len() as int;
                lemma_concat_items_take_succ(its, j0);
                assert((it.address@, it.storage_keys@.map_values(|k: [u8; 32]| k@)) == its[j0]);
                assert(items_view(items@) =~= its.take(j0 + 1));
            }
        }
        q = q2;
    }
    let al = AccessList { items };
    let mut tmp: Vec<u8> = Vec::new();
    encode_access_list(&mut tmp, &al);
    if !crate::bytes_eq(tmp.as_slice(), &buf[pos..end]) {
        proof {
            assert forall|its: Seq<(Seq<u8>, Seq<Seq<u8>>)>| #[trigger] list_match(
                its,
                buf@,
                pos as int,
            ) implies false by {
                lemma_list_complete_final(its, items_view(items@), start as int, end as int);
                assert(access_list_view(al) == items_view(items@));
                lemma_prefix_slice(rlp_access_list_spec(its), buf@, pos as int);
            }
        }
        return None;
    }
    proof {
        assert forall|its: Seq<(Seq<u8>, Seq<Seq<u8>>)>| #[trigger] list_match(
            its,
            buf@,
            pos as int,
        ) implies access_list_view(al) == its && end == pos + rlp_access_list_spec(its).len() by {
            lemma_list_shape(its, buf@, pos as int);
            lemma_list_complete_final(its, items_view(items@), start as int, end as int);
            assert(access_list_view(al) == items_view(items@));
        }
    }
    Some((al, end))
}

/// Parse a string field at `pos`: the consumed bytes are exactly the
/// encoding of the returned payload, and an encoded string is always
/// accepted.
fn parse_str_field(buf: &[u8], pos: usize) -> (r: Option<(Vec<u8>, usize)>)
    requires
        pos <= buf@.len(),
    ensures
        r matches Some((v, p)) ==> pos < p <= buf@.len() && buf@.subrange(pos as int, p as int)
            == rlp_str_spec(v@),
        forall|s0: Seq<u8>| #[trigger] is_prefix(rlp_str_spec(s0), buf@.skip(pos as int)) ==> (
        r matches Some(x) && x.0@ == s0 && x.1 == pos + rlp_str_spec(s0).len()),
{
    let parsed = parse_str(buf, pos);
    let (payload, p) = match parsed {
        Some(x) => x,
        None => {
            return None;
        },
    };
    let mut tmp: Vec<u8> = Vec::new();
    encode_str(&mut tmp, payload.as_slice());
    if !crate::bytes_eq(tmp.as_slice(), &buf[pos..p]) {
        proof {
            assert forall|s0: Seq<u8>| #[trigger] is_prefix(
                rlp_str_spec(s0),
                buf@.skip(pos as int),
            ) implies false by {
                lemma_prefix_slice(rlp_str_spec(s0), buf@, pos as int);
            }
        }
        return None;
    }
    Some((payload, p))
}

} // verus!

verus! {

/// `p` is a prefix of `s`.
pub open spec fn is_prefix(p: Seq<u8>, s: Seq<u8>) -> bool {
    p.len() <= s.len() && s.take(p.len() as int) == p
}

/// The big-endian base-256 value of a byte string.
pub open spec fn be_value(s: Seq<u8>) -> nat
    decreases s.len(),
{
    if s.len() == 0 {
        0
    } else {
        be_value(s.drop_last()) * 256 + s.last() as nat
    }
}

/// `k` zero bytes.
pub open spec fn zero_bytes(k: nat) -> Seq<u8> {
    Seq::new(k, |i: int| 0u8)
}

proof fn lemma_pow256_pow2(k: nat)
    ensures
        pow256(k) == pow2(8 * k),
    decreases k,
{
    if k == 0 {
        lemma2_to64();
    } else {
        lemma_pow256_pow2((k - 1) as nat);
        lemma_pow2_adds(8, 8 * ((k - 1) as nat));
        lemma2_to64();
        assert(8 * k == 8 + 8 * ((k - 1) as nat));
    }
}

proof fn lemma_pow256_pos(k: nat)
    ensures
        pow256(k) >= 1,
    decreases k,
{
    if k > 0 {
        lemma_pow256_pos((k - 1) as nat);
    }
}

proof fn lemma_pow256_increases(a: nat, b: nat)
    requires
        a <= b,
    ensures
        pow256(a) <= pow256(b),
    decreases b,
{
    if a < b {
        lemma_pow256_increases(a, (b - 1) as nat);
        lemma_pow256_pos((b - 1) as nat);
    }
}

proof fn lemma_pow256_values()
    ensures
        pow256(0) == 1,
        pow256(1) == 0x100,
        pow256(2) == 0x10000,
        pow256(3) == 0x1000000,
        pow256(4) == 0x100000000,
        pow256(5) == 0x10000000000,
        pow256(6) == 0x1000000000000,
        pow256(7) == 0x100000000000000,
        pow256(8) == 0x10000000000000000,
        pow256(9) == 0x1000000000000000000,
        pow256(10) == 0x100000000000000000000,
        pow256(11) == 0x10000000000000000000000,
        pow256(12) == 0x1000000000000000000000000,
        pow256(13) == 0x100000000000000000000000000,
        pow256(14) == 0x10000000000000000000000000000,
        pow256(15) == 0x1000000000000000000000000000000,
        pow256(16) == 0x100000000000000000000000000000000,
{
    assert(pow256(1) == 256 * pow256(0));
    assert(pow256(2) == 256 * pow256(1));
    assert(pow256(3) == 256 * pow256(2));
    assert(pow256(4) == 256 * pow256(3));
    assert(pow256(5) == 256 * pow256(4));
    assert(pow256(6) == 256 * pow256(5));
    assert(pow256(7) == 256 * pow256(6));
    assert(pow256(8) == 256 * pow256(7));
    assert(pow256(9) == 256 * pow256(8));
    assert(pow256(10) == 256 * pow256(9));
    assert(pow256(11) == 256 * pow256(10));
    assert(pow256(12) == 256 * pow256(11));
    assert(pow256(13) == 256 * pow256(12));
    assert(pow256(14) == 256 * pow256(13));
    assert(pow256(15) == 256 * pow256(14));
    assert(pow256(16) == 256 * pow256(15));
}

proof fn lemma_be_value_bound(s: Seq<u8>)
    ensures
        be_value(s) < pow256(s.len()),
    decreases s.len(),
{
    if s.len() > 0 {
        lemma_be_value_bound(s.drop_last());
    }
}

proof fn lemma_be_value_zero_front(s: Seq<u8>)
    requires
        s.len() > 0,
        s[0] == 0,
    ensures
        be_value(s) == be_value(s.skip(1)),
    decreases s.len(),
{
    if s.len() == 1 {
        assert(s.skip(1) =~= Seq::<u8>::empty());
        assert(s.drop_last() =~= Seq::<u8>::empty());
        assert(s.last() == s[0]);
    } else {
        assert(s.drop_last()[0] == s[0]);
        lemma_be_value_zero_front(s.drop_last());
        assert(s.skip(1).drop_last() =~= s.drop_last().skip(1));
        assert(s.skip(1).last() == s.last());
    }
}

proof fn lemma_be_value_pad(k: nat, p: Seq<u8>)
    ensures
        be_value(zero_bytes(k) + p) == be_value(p),
    decreases k,
{
    if k == 0 {
        assert(zero_bytes(0) + p =~= p);
    } else {
        let s = zero_bytes(k) + p;
        assert(s[0] == 0);
        lemma_be_value_zero_front(s);
        assert(s.skip(1) =~= zero_bytes((k - 1) as nat) + p);
        lemma_be_value_pad((k - 1) as nat, p);
    }
}

proof fn lemma_trim_len(s: Seq<u8>)
    ensures
        trim_zeros(s).len() <= s.len(),
    decreases s.len(),
{
    if s.len() > 0 && s[0] == 0 {
        lemma_trim_len(s.skip(1));
    }
}

/// A byte string is its trimmed form behind the zeros that were trimmed.
proof fn lemma_trim_decompose(s: Seq<u8>)
    ensures
        trim_zeros(s).len() <= s.len(),
        s == zero_bytes((s.len() - trim_zeros(s).len()) as nat) + trim_zeros(s),
    decreases s.len(),
{
    lemma_trim_len(s);
    if s.len() > 0 && s[0] == 0 {
        lemma_trim_decompose(s.skip(1));
        let t = trim_zeros(s);
        let k = (s.len() - t.len()) as nat;
        assert(s.skip(1) == zero_bytes((k - 1) as nat) + t);
        assert forall|i: int| 0 <= i < s.len() implies s[i] == (zero_bytes(k) + t)[i] by {
            if i >= 1 {
                assert(s[i] == s.skip(1)[i - 1]);
                assert(s.skip(1)[i - 1] == (zero_bytes((k - 1) as nat) + t)[i - 1]);
            }
        }
        assert(s =~= zero_bytes(k) + t);
    } else {
        assert(s =~= zero_bytes(0) + trim_zeros(s));
    }
}

proof fn lemma_len_be_value(n: nat)
    ensures
        be_value(len_be(n)) == n,
    decreases n,
{
    if n > 0 {
        assert(n / 256 < n) by (nonlinear_arith)
            requires
                n >= 1,
        ;
        lemma_len_be_value(n / 256);
        assert(len_be(n).drop_last() =~= len_be(n / 256));
        lemma_fundamental_div_mod(n as int, 256);
    }
}

proof fn lemma_len_be_bound_usize(n: nat)
    requires
        n <= usize::MAX,
    ensures
        1 <= len_be(n).len() <= 8 || n == 0,
        len_be(n).len() <= 8,
{
    lemma_pow256_values();
    lemma_len_be_bound(n, 8);
}

proof fn lemma_mask_byte_u64(x: u64)
    ensures
        ((x & 0xff) as nat) == (x as nat) % 256,
        (x & 0xff) < 256,
{
    assert(x & 0xff == x % 256) by (bit_vector);
    assert(x % 256 < 256) by (bit_vector);
}

proof fn lemma_mask_byte_u128(x: u128)
    ensures
        ((x & 0xff) as nat) == (x as nat) % 256,
        (x & 0xff) < 256,
{
    assert(x & 0xff == x % 256) by (bit_vector);
    assert(x % 256 < 256) by (bit_vector);
}

proof fn lemma_u64_byte_div(v: u64, i: int)
    requires
        0 <= i < 8,
    ensures
        (u64_byte(v, i) as nat) == ((v as nat) / pow256((7 - i) as nat)) % 256,
{
    let sh: u64 = ((7 - i) * 8) as u64;
    lemma_u64_shr_is_div(v, sh);
    lemma_pow256_pow2((7 - i) as nat);
    assert(8 * ((7 - i) as nat) == sh as nat);
    lemma_mask_byte_u64(v >> sh);
}

proof fn lemma_u128_byte_div(v: u128, i: int)
    requires
        0 <= i < 16,
    ensures
        (u128_byte(v, i) as nat) == ((v as nat) / pow256((15 - i) as nat)) % 256,
{
    let sh: u128 = ((15 - i) * 8) as u128;
    lemma_u128_shr_is_div(v, sh);
    lemma_pow256_pow2((15 - i) as nat);
    assert(8 * ((15 - i) as nat) == sh as nat);
    lemma_mask_byte_u128(v >> sh);
}

proof fn lemma_u64_be_value_rec(v: u64, i: int)
    requires
        0 <= i <= 8,
    ensures
        be_value(u64_be_seq(v).take(i)) == (v as nat) / pow256((8 - i) as nat),
    decreases i,
{
    let s = u64_be_seq(v);
    if i == 0 {
        assert(s.take(0) =~= Seq::<u8>::empty());
        lemma_pow256_pow2(8);
        lemma2_to64();
        assert((v as nat) < pow256(8));
        assert((v as nat) / pow256(8) == 0) by (nonlinear_arith)
            requires
                (v as nat) < pow256(8),
                pow256(8) > 0,
        ;
        lemma_pow256_pos(8);
    } else {
        lemma_u64_be_value_rec(v, i - 1);
        assert(s.take(i).drop_last() =~= s.take(i - 1));
        assert(s.take(i).last() == s[i - 1]);
        lemma_u64_byte_div(v, i - 1);
        let d = pow256((8 - i) as nat);
        lemma_pow256_pos((8 - i) as nat);
        assert(pow256((9 - i) as nat) == 256 * d);
        lemma_div_denominator(v as int, d as int, 256);
        lemma_fundamental_div_mod(((v as nat) / d) as int, 256);
        assert(be_value(s.take(i)) == ((v as nat) / (256 * d)) * 256 + ((v as nat) / d) % 256);
        assert((v as nat) / (256 * d) == ((v as nat) / d) / 256) by {
            assert(d * 256 == 256 * d);
        }
    }
}

proof fn lemma_u64_be_value(v: u64)
    ensures
        be_value(u64_be_seq(v)) == v,
{
    lemma_u64_be_value_rec(v, 8);
    assert(u64_be_seq(v).take(8) =~= u64_be_seq(v));
    assert(pow256(0) == 1);
    assert((v as nat) / 1 == v as nat) by (nonlinear_arith);
}

proof fn lemma_u128_be_value_rec(v: u128, i: int)
    requires
        0 <= i <= 16,
    ensures
        be_value(u128_be_seq(v).take(i)) == (v as nat) / pow256((16 - i) as nat),
    decreases i,
{
    let s = u128_be_seq(v);
    if i == 0 {
        assert(s.take(0) =~= Seq::<u8>::empty());
        lemma_pow256_pow2(16);
        lemma_pow2_adds(64, 64);
        lemma2_to64();
        assert(pow2(128) == pow2(64) * pow2(64));
        assert((v as nat) < pow256(16));
        assert((v as nat) / pow256(16) == 0) by (nonlinear_arith)
            requires
                (v as nat) < pow256(16),
                pow256(16) > 0,
        ;
        lemma_pow256_pos(16);
    } else {
        lemma_u128_be_value_rec(v, i - 1);
        assert(s.take(i).drop_last() =~= s.take(i - 1));
        assert(s.take(i).last() == s[i - 1]);
        lemma_u128_byte_div(v, i - 1);
        let d = pow256((16 - i) as nat);
        lemma_pow256_pos((16 - i) as nat);
        assert(pow256((17 - i) as nat) == 256 * d);
        lemma_div_denominator(v as int, d as int, 256);
        lemma_fundamental_div_mod(((v as nat) / d) as int, 256);
        assert(be_value(s.take(i)) == ((v as nat) / (256 * d)) * 256 + ((v as nat) / d) % 256);
        assert((v as nat) / (256 * d) == ((v as nat) / d) / 256) by {
            assert(d * 256 == 256 * d);
        }
    }
}

proof fn lemma_u128_be_value(v: u128)
    ensures
        be_value(u128_be_seq(v)) == v,
{
    lemma_u128_be_value_rec(v, 16);
    assert(u128_be_seq(v).take(16) =~= u128_be_seq(v));
    assert(pow256(0) == 1);
    assert((v as nat) / 1 == v as nat) by (nonlinear_arith);
}

} // verus!

verus! {

proof fn lemma_prefix_index(p: Seq<u8>, s: Seq<u8>, j: int)
    requires
        is_prefix(p, s),
        0 <= j < p.len(),
    ensures
        s[j] == p[j],
{
    assert(s.take(p.len() as int)[j] == p[j]);
}

/// What a buffer looks like at a position where an encoded string stands:
/// the leading byte classifies the form, and the payload bytes follow it.
proof fn lemma_rlp_str_at(s0: Seq<u8>, b: Seq<u8>, pos: int)
    requires
        0 <= pos <= b.len(),
        b.len() <= usize::MAX,
        is_prefix(rlp_str_spec(s0), b.skip(pos)),
    ensures
        pos < b.len(),
        s0.len() <= usize::MAX,
        pos + rlp_str_spec(s0).len() <= b.len(),
        (s0.len() == 1 && s0[0] < 0x80) ==> (rlp_str_spec(s0) == s0 && b[pos] == s0[0] && b[pos]
            < 0x80),
        (!(s0.len() == 1 && s0[0] < 0x80) && s0.len() <= 55) ==> ((b[pos] as int) == 0x80
            + s0.len() && rlp_str_spec(s0).len() == 1 + s0.len() && (forall|j: int|
            0 <= j < s0.len() ==> b[pos + 1 + j] == s0[j])),
        s0.len() > 55 ==> ({
            let lb = len_be(s0.len());
            &&& 1 <= lb.len() <= 8
            &&& rlp_str_spec(s0).len() == 1 + lb.len() + s0.len()
            &&& (b[pos] as int) == 0xb7 + lb.len()
            &&& be_value(b.subrange(pos + 1, pos + 1 + lb.len() as int)) == s0.len()
            &&& forall|j: int| 0 <= j < s0.len() ==> b[pos + 1 + lb.len() + j] == s0[j]
        }),
{
    let enc = rlp_str_spec(s0);
    assert(enc.len() >= 1);
    lemma_prefix_index(enc, b.skip(pos), 0);
    assert(b.skip(pos)[0] == b[pos]);
    if s0.len() == 1 && s0[0] < 0x80 {
    } else if s0.len() <= 55 {
        assert(enc == rlp_header_spec(false, s0.len()) + s0);
        assert(enc[0] == (0x80 + s0.len()) as u8);
        assert(0x80 + s0.len() < 256);
        assert forall|j: int| 0 <= j < s0.len() implies b[pos + 1 + j] == s0[j] by {
            lemma_prefix_index(enc, b.skip(pos), 1 + j);
            assert(b.skip(pos)[1 + j] == b[pos + 1 + j]);
            assert(enc[1 + j] == s0[j]);
        }
    } else {
        let n = s0.len();
        let lb = len_be(n);
        assert(lb.len() >= 1);
        assert(enc == rlp_header_spec(false, n) + s0);
        assert(rlp_header_spec(false, n) == seq![(0x80 + 55 + lb.len()) as u8] + lb);
        assert(enc.len() == 1 + lb.len() + n);
        assert(n <= b.len());
        lemma_len_be_bound_usize(n);
        assert(0xb7 + lb.len() < 256);
        assert(enc[0] == (0xb7 + lb.len()) as u8);
        assert forall|j: int| 0 <= j < lb.len() implies b[pos + 1 + j] == lb[j] by {
            lemma_prefix_index(enc, b.skip(pos), 1 + j);
            assert(b.skip(pos)[1 + j] == b[pos + 1 + j]);
            assert(enc[1 + j] == lb[j]);
        }
        assert(b.subrange(pos + 1, pos + 1 + lb.len() as int) =~= lb);
        lemma_len_be_value(n);
        assert forall|j: int| 0 <= j < n implies b[pos + 1 + lb.len() + j] == s0[j] by {
            lemma_prefix_index(enc, b.skip(pos), 1 + lb.len() + j);
            assert(b.skip(pos)[1 + lb.len() + j] == b[pos + 1 + lb.len() + j]);
            assert(enc[1 + lb.len() + j] == s0[j]);
        }
    }
}

/// What a buffer looks like at a position where an encoded list with its
/// payload stands.
proof fn lemma_rlp_list_header_at(n: nat, body: Seq<u8>, b: Seq<u8>, pos: int)
    requires
        0 <= pos <= b.len(),
        b.len() <= usize::MAX,
        body.len() == n,
        is_prefix(rlp_header_spec(true, n) + body, b.skip(pos)),
    ensures
        pos < b.len(),
        n <= usize::MAX,
        pos + rlp_header_spec(true, n).len() + n <= b.len(),
        n <= 55 ==> (rlp_header_spec(true, n).len() == 1 && (b[pos] as int) == 0xc0 + n),
        n > 55 ==> ({
            let lb = len_be(n);
            &&& 1 <= lb.len() <= 8
            &&& rlp_header_spec(true, n).len() == 1 + lb.len()
            &&& (b[pos] as int) == 0xf7 + lb.len()
            &&& be_value(b.subrange(pos + 1, pos + 1 + lb.len() as int)) == n
        }),
{
    let hdr = rlp_header_spec(true, n);
    let enc = hdr + body;
    assert(hdr.len() >= 1);
    lemma_prefix_index(enc, b.skip(pos), 0);
    assert(b.skip(pos)[0] == b[pos]);
    assert(n <= b.len());
    if n <= 55 {
        assert(hdr == seq![(0xc0 + n) as u8]);
        assert(0xc0 + n < 256);
        assert(enc[0] == (0xc0 + n) as u8);
    } else {
        let lb = len_be(n);
        assert(lb.len() >= 1);
        lemma_len_be_bound_usize(n);
        assert(hdr == seq![(0xc0 + 55 + lb.len()) as u8] + lb);
        assert(0xf7 + lb.len() < 256);
        assert(enc[0] == (0xf7 + lb.len()) as u8);
        assert forall|j: int| 0 <= j < lb.len() implies b[pos + 1 + j] == lb[j] by {
            lemma_prefix_index(enc, b.skip(pos), 1 + j);
            assert(b.skip(pos)[1 + j] == b[pos + 1 + j]);
            assert(enc[1 + j] == lb[j]);
        }
        assert(b.subrange(pos + 1, pos + 1 + lb.len() as int) =~= lb);
        lemma_len_be_value(n);
    }
}

} // verus!

verus! {

proof fn lemma_prefix_slice(p: Seq<u8>, b: Seq<u8>, pos: int)
    requires
        0 <= pos <= b.len(),
        is_prefix(p, b.skip(pos)),
    ensures
        pos + p.len() <= b.len(),
        b.subrange(pos, pos + p.len() as int) == p,
{
    assert forall|j: int| 0 <= j < p.len() implies b.subrange(pos, pos + p.len() as int)[j]
        == p[j] by {
        lemma_prefix_index(p, b.skip(pos), j);
        assert(b.skip(pos)[j] == b[pos + j]);
    }
    assert(b.subrange(pos, pos + p.len() as int) =~= p);
}

proof fn lemma_u64_field_value(v: u64, payload: Seq<u8>)
    requires
        payload == trim_zeros(u64_be_seq(v)),
    ensures
        payload.len() <= 8,
        be_value(payload) == v,
{
    lemma_trim_len(u64_be_seq(v));
    lemma_trim_decompose(u64_be_seq(v));
    lemma_be_value_pad((8 - payload.len()) as nat, payload);
    lemma_u64_be_value(v);
}

proof fn lemma_u128_field_value(v: u128, payload: Seq<u8>)
    requires
        payload == trim_zeros(u128_be_seq(v)),
    ensures
        payload.len() <= 16,
        be_value(payload) == v,
{
    lemma_trim_len(u128_be_seq(v));
    lemma_trim_decompose(u128_be_seq(v));
    lemma_be_value_pad((16 - payload.len()) as nat, payload);
    lemma_u128_be_value(v);
}

proof fn lemma_u256_field_value(v0: U256, payload: Seq<u8>)
    requires
        payload == trim_zeros(v0.be_bytes()),
    ensures
        payload.len() <= 32,
        zero_bytes((32 - payload.len()) as nat) + payload == v0.be_bytes(),
        be_value((zero_bytes((32 - payload.len()) as nat) + payload).take(16)) == v0.hi,
        be_value((zero_bytes((32 - payload.len()) as nat) + payload).subrange(16, 32)) == v0.lo,
{
    lemma_trim_len(v0.be_bytes());
    lemma_trim_decompose(v0.be_bytes());
    assert(v0.be_bytes().take(16) =~= u128_be_seq(v0.hi));
    assert(v0.be_bytes().subrange(16, 32) =~= u128_be_seq(v0.lo));
    lemma_u128_be_value(v0.hi);
    lemma_u128_be_value(v0.lo);
}

} // verus!

verus! {

/// The views of a sequence of access list entries.
spec fn items_view(s: Seq<AccessListItem>) -> Seq<(Seq<u8>, Seq<Seq<u8>>)> {
    s.map_values(
        |it: AccessListItem| (it.address@, it.storage_keys@.map_values(|k: [u8; 32]| k@)),
    )
}

proof fn lemma_add_assoc(a: Seq<u8>, b: Seq<u8>, c: Seq<u8>)
    ensures
        (a + b) + c == a + (b + c),
{
    assert((a + b) + c =~= a + (b + c));
}

proof fn lemma_prefix_append(a: Seq<u8>, b: Seq<u8>)
    ensures
        is_prefix(a, a + b),
{
    assert((a + b).take(a.len() as int) =~= a);
}

proof fn lemma_prefix_trans(a: Seq<u8>, b: Seq<u8>, c: Seq<u8>)
    requires
        is_prefix(a, b),
        is_prefix(b, c),
    ensures
        is_prefix(a, c),
{
    assert forall|j: int| 0 <= j < a.len() implies c.take(a.len() as int)[j] == a[j] by {
        lemma_prefix_index(b, c, j);
        lemma_prefix_index(a, b, j);
    }
    assert(c.take(a.len() as int) =~= a);
}

proof fn lemma_prefix_skip(a: Seq<u8>, b: Seq<u8>, s: Seq<u8>)
    requires
        is_prefix(a + b, s),
    ensures
        a.len() + b.len() <= s.len(),
        is_prefix(b, s.skip(a.len() as int)),
{
    assert forall|j: int| 0 <= j < b.len() implies s.skip(a.len() as int).take(b.len() as int)[j]
        == b[j] by {
        lemma_prefix_index(a + b, s, a.len() + j);
        assert((a + b)[a.len() + j] == b[j]);
    }
    assert(s.skip(a.len() as int).take(b.len() as int) =~= b);
}

proof fn lemma_prefix_head(a: Seq<u8>, b: Seq<u8>, s: Seq<u8>)
    requires
        is_prefix(a + b, s),
    ensures
        is_prefix(a, s),
{
    lemma_prefix_append(a, b);
    lemma_prefix_trans(a, a + b, s);
}

proof fn lemma_rlp_str_len_pos(s: Seq<u8>)
    ensures
        rlp_str_spec(s).len() >= 1,
{
}

proof fn lemma_item_spec_len_pos(iv: (Seq<u8>, Seq<Seq<u8>>))
    ensures
        rlp_access_item_spec(iv).len() >= 1,
{
}

proof fn lemma_concat_strs_take_succ(ks: Seq<Seq<u8>>, j: int)
    requires
        0 <= j < ks.len(),
    ensures
        concat_rlp_strs(ks.take(j + 1)) == concat_rlp_strs(ks.take(j)) + rlp_str_spec(ks[j]),
        concat_rlp_strs(ks.take(j)).len() < concat_rlp_strs(ks.take(j + 1)).len(),
{
    assert(ks.take(j + 1).drop_last() =~= ks.take(j));
    assert(ks.take(j + 1).last() == ks[j]);
    lemma_rlp_str_len_pos(ks[j]);
}

proof fn lemma_concat_strs_prefix(ks: Seq<Seq<u8>>, m: int)
    requires
        0 <= m <= ks.len(),
    ensures
        is_prefix(concat_rlp_strs(ks.take(m)), concat_rlp_strs(ks)),
    decreases ks.len() - m,
{
    if m == ks.len() {
        assert(ks.take(m) =~= ks);
        assert(concat_rlp_strs(ks).take(concat_rlp_strs(ks).len() as int) =~= concat_rlp_strs(
            ks,
        ));
    } else {
        lemma_concat_strs_prefix(ks, m + 1);
        lemma_concat_strs_take_succ(ks, m);
        lemma_prefix_append(concat_rlp_strs(ks.take(m)), rlp_str_spec(ks[m]));
        lemma_prefix_trans(
            concat_rlp_strs(ks.take(m)),
            concat_rlp_strs(ks.take(m + 1)),
            concat_rlp_strs(ks),
        );
    }
}

proof fn lemma_concat_items_take_succ(its: Seq<(Seq<u8>, Seq<Seq<u8>>)>, j: int)
    requires
        0 <= j < its.len(),
    ensures
        concat_rlp_items(its.take(j + 1)) == concat_rlp_items(its.take(j)) + rlp_access_item_spec(
            its[j],
        ),
        concat_rlp_items(its.take(j)).len() < concat_rlp_items(its.take(j + 1)).len(),
{
    assert(its.take(j + 1).drop_last() =~= its.take(j));
    assert(its.take(j + 1).last() == its[j]);
    lemma_item_spec_len_pos(its[j]);
}

proof fn lemma_concat_items_prefix(its: Seq<(Seq<u8>, Seq<Seq<u8>>)>, m: int)
    requires
        0 <= m <= its.len(),
    ensures
        is_prefix(concat_rlp_items(its.take(m)), concat_rlp_items(its)),
    decreases its.len() - m,
{
    if m == its.len() {
        assert(its.take(m) =~= its);
        assert(concat_rlp_items(its).take(concat_rlp_items(its).len() as int) =~= concat_rlp_items(
            its,
        ));
    } else {
        lemma_concat_items_prefix(its, m + 1);
        lemma_concat_items_take_succ(its, m);
        lemma_prefix_append(concat_rlp_items(its.take(m)), rlp_access_item_spec(its[m]));
        lemma_prefix_trans(
            concat_rlp_items(its.take(m)),
            concat_rlp_items(its.take(m + 1)),
            concat_rlp_items(its),
        );
    }
}

/// How one encoded access list entry decomposes at a position: the outer
/// header, the address string, the keys header, and the keys.
proof fn lemma_item_shape(iv: (Seq<u8>, Seq<Seq<u8>>), b: Seq<u8>, pos: int)
    requires
        0 <= pos <= b.len(),
        item_match(iv, b, pos),
    ensures
        ({
            let keyc = concat_rlp_strs(iv.1);
            let khdr = rlp_header_spec(true, keyc.len());
            let astr = rlp_str_spec(iv.0);
            let pay = astr + khdr + keyc;
            let hdr = rlp_header_spec(true, pay.len());
            &&& rlp_access_item_spec(iv) == hdr + pay
            &&& rlp_access_item_spec(iv).len() == hdr.len() + astr.len() + khdr.len()
                + keyc.len()
            &&& is_prefix(hdr + pay, b.skip(pos))
            &&& is_prefix(astr, b.skip((pos + hdr.len()) as int))
            &&& is_prefix(khdr + keyc, b.skip((pos + hdr.len() + astr.len()) as int))
            &&& keys_match(
                iv.1,
                b,
                pos + hdr.len() + astr.len() + khdr.len(),
                pos + rlp_access_item_spec(iv).len(),
            )
            &&& pos + rlp_access_item_spec(iv).len() <= b.len()
        }),
{
    let keyc = concat_rlp_strs(iv.1);
    let khdr = rlp_header_spec(true, keyc.len());
    let astr = rlp_str_spec(iv.0);
    let pay = astr + khdr + keyc;
    let hdr = rlp_header_spec(true, pay.len());
    assert(rlp_access_item_spec(iv) == hdr + pay);
    assert(is_prefix(hdr + pay, b.skip(pos)));
    lemma_prefix_skip(hdr, pay, b.skip(pos));
    assert(b.skip(pos).skip(hdr.len() as int) =~= b.skip((pos + hdr.len()) as int));
    assert(pay =~= astr + (khdr + keyc));
    lemma_prefix_head(astr, khdr + keyc, b.skip((pos + hdr.len()) as int));
    lemma_prefix_skip(astr, khdr + keyc, b.skip((pos + hdr.len()) as int));
    assert(b.skip((pos + hdr.len()) as int).skip(astr.len() as int) =~= b.skip((
        pos + hdr.len() + astr.len()) as int));
    lemma_prefix_skip(khdr, keyc, b.skip((pos + hdr.len() + astr.len()) as int));
    assert(b.skip((pos + hdr.len() + astr.len()) as int).skip(khdr.len() as int) =~= b.skip((
        pos + hdr.len() + astr.len() + khdr.len()) as int));
}

/// How an encoded access list decomposes at a position.
proof fn lemma_list_shape(items: Seq<(Seq<u8>, Seq<Seq<u8>>)>, b: Seq<u8>, pos: int)
    requires
        0 <= pos <= b.len(),
        list_match(items, b, pos),
    ensures
        ({
            let cc = concat_rlp_items(items);
            let hdr = rlp_header_spec(true, cc.len());
            &&& rlp_access_list_spec(items) == hdr + cc
            &&& is_prefix(hdr + cc, b.skip(pos))
            &&& is_prefix(cc, b.skip((pos + hdr.len()) as int))
            &&& pos + rlp_access_list_spec(items).len() <= b.len()
        }),
{
    let cc = concat_rlp_items(items);
    let hdr = rlp_header_spec(true, cc.len());
    assert(rlp_access_list_spec(items) == hdr + cc);
    assert(is_prefix(hdr + cc, b.skip(pos)));
    lemma_prefix_skip(hdr, cc, b.skip(pos));
    assert(b.skip(pos).skip(hdr.len() as int) =~= b.skip((pos + hdr.len()) as int));
}

/// A parse that consumed the whole payload of an encoded list has rebuilt
/// every entry.
proof fn lemma_list_complete_final(
    its: Seq<(Seq<u8>, Seq<Seq<u8>>)>,
    built: Seq<(Seq<u8>, Seq<Seq<u8>>)>,
    start: int,
    end: int,
)
    requires
        built.len() <= its.len(),
        built == its.take(built.len() as int),
        end == start + concat_rlp_items(its).len(),
        end == start + concat_rlp_items(its.take(built.len() as int)).len(),
    ensures
        built == its,
{
    let j = built.len() as int;
    if j < its.len() {
        lemma_concat_items_take_succ(its, j);
        lemma_concat_items_prefix(its, j + 1);
        assert(false);
    }
    assert(its.take(j) =~= its);
}

} // verus!

verus! {

/// Copy `n` bytes of a slice into a 96-byte array.
fn array96_from(s: &[u8]) -> (r: [u8; 96])
    requires
        s@.len() == 96,
    ensures
        r@ == s@,
{
    let mut a = [0u8; 96];
    let mut i: usize = 0;
    while i < 96
        invariant
            i <= 96,
            s@.len() == 96,
            a@.len() == 96,
            forall|j: int| 0 <= j < i ==> a@[j] == s@[j],
        decreases 96 - i,
    {
        a[i] = s[i];
        i = i + 1;
    }
    proof {
        assert(a@ =~= s@);
    }
    a
}

/// Copy the bytes of a slice into a 16-byte array.
fn array16_from(s: &[u8]) -> (r: [u8; 16])
    requires
        s@.len() == 16,
    ensures
        r@ == s@,
{
    let mut a = [0u8; 16];
    let mut i: usize = 0;
    while i < 16
        invariant
            i <= 16,
            s@.len() == 16,
            a@.len() == 16,
            forall|j: int| 0 <= j < i ==> a@[j] == s@[j],
        decreases 16 - i,
    {
        a[i] = s[i];
        i = i + 1;
    }
    proof {
        assert(a@ =~= s@);
    }
    a
}

/// Decode the six leading integer fields of an encrypted transaction.
#[verifier::rlimit(100)]
fn decode_front(buf: &[u8]) -> (r: Option<((u64, u64, u128, u128, u64, U256), usize)>)
    ensures
        r matches Some((vs, p)) ==> p <= buf@.len() && buf@.take(p as int) == rlp_u64_spec(vs.0)
            + rlp_u64_spec(vs.1) + rlp_u128_spec(vs.2) + rlp_u128_spec(vs.3) + rlp_u64_spec(vs.4)
            + rlp_u256_spec(vs.5),
        forall|tx: TxDawnEncrypted, rest: Seq<u8>|
            buf@ == #[trigger] (tx_fields_rlp(tx) + rest) ==> (r matches Some(x) && x.0.0
                == tx.chain_id && x.0.1 == tx.nonce && x.0.2 == tx.max_priority_fee_per_gas
                && x.0.3 == tx.max_fee_per_gas && x.0.4 == tx.gas_limit && x.0.5 == tx.value
                && x.1 == rlp_u64_spec(tx.chain_id).len() + rlp_u64_spec(tx.nonce).len()
                + rlp_u128_spec(tx.max_priority_fee_per_gas).len() + rlp_u128_spec(
                tx.max_fee_per_gas,
            ).len() + rlp_u64_spec(tx.gas_limit).len() + rlp_u256_spec(tx.value).len()),
{
    let parsed1 = parse_u64_field(buf, 0);
    let (chain_id, p1) = match parsed1 {
        Some(x) => x,
        None => {
            proof {
                assert forall|tx: TxDawnEncrypted, rest: Seq<u8>| buf@ == #[trigger] (tx_fields_rlp(
                    tx,
                ) + rest) implies false by {
                    lemma_fields_prefixes(tx, rest, buf@);
                    assert(is_prefix(rlp_u64_spec(tx.chain_id), buf@.skip(0)));
                }
            }
            return None;
        },
    };
    let parsed2 = parse_u64_field(buf, p1);
    let (nonce, p2) = match parsed2 {
        Some(x) => x,
        None => {
            proof {
                assert forall|tx: TxDawnEncrypted, rest: Seq<u8>| buf@ == #[trigger] (tx_fields_rlp(
                    tx,
                ) + rest) implies false by {
                    lemma_fields_prefixes(tx, rest, buf@);
                    assert(is_prefix(rlp_u64_spec(tx.chain_id), buf@.skip(0)));
                    assert(is_prefix(rlp_u64_spec(tx.nonce), buf@.skip(p1 as int)));
                }
            }
            return None;
        },
    };
    let parsed3 = parse_u128_field(buf, p2);
    let (max_priority_fee_per_gas, p3) = match parsed3 {
        Some(x) => x,
        None => {
            proof {
                assert forall|tx: TxDawnEncrypted, rest: Seq<u8>| buf@ == #[trigger] (tx_fields_rlp(
                    tx,
                ) + rest) implies false by {
                    lemma_fields_prefixes(tx, rest, buf@);
                    assert(is_prefix(rlp_u64_spec(tx.chain_id), buf@.skip(0)));
                    assert(is_prefix(rlp_u64_spec(tx.nonce), buf@.skip(p1 as int)));
                    assert(is_prefix(rlp_u128_spec(tx.max_priority_fee_per_gas), buf@.skip(p2 as int)));
                }
            }
            return None;
        },
    };
    let parsed4 = parse_u128_field(buf, p3);
    let (max_fee_per_gas, p4) = match parsed4 {
        Some(x) => x,
        None => {
            proof {
                assert forall|tx: TxDawnEncrypted, rest: Seq<u8>| buf@ == #[trigger] (tx_fields_rlp(
                    tx,
                ) + rest) implies false by {
                    lemma_fields_prefixes(tx, rest, buf@);
                    assert(is_prefix(rlp_u64_spec(tx.chain_id), buf@.skip(0)));
                    assert(is_prefix(rlp_u64_spec(tx.nonce), buf@.skip(p1 as int)));
                    assert(is_prefix(rlp_u128_spec(tx.max_priority_fee_per_gas), buf@.skip(p2 as int)));
                    assert(is_prefix(rlp_u128_spec(tx.max_fee_per_gas), buf@.skip(p3 as int)));
                }
            }
            return None;
        },
    };
    let parsed5 = parse_u64_field(buf, p4);
    let (gas_limit, p5) = match parsed5 {
        Some(x) => x,
        None => {
            proof {
                assert forall|tx: TxDawnEncrypted, rest: Seq<u8>| buf@ == #[trigger] (tx_fields_rlp(
                    tx,
                ) + rest) implies false by {
                    lemma_fields_prefixes(tx, rest, buf@);
                    assert(is_prefix(rlp_u64_spec(tx.chain_id), buf@.skip(0)));
                    assert(is_prefix(rlp_u64_spec(tx.nonce), buf@.skip(p1 as int)));
                    assert(is_prefix(rlp_u128_spec(tx.max_priority_fee_per_gas), buf@.skip(p2 as int)));
                    assert(is_prefix(rlp_u128_spec(tx.max_fee_per_gas), buf@.skip(p3 as int)));
                    assert(is_prefix(rlp_u64_spec(tx.gas_limit), buf@.skip(p4 as int)));
                }
            }
            return None;
        },
    };
    let parsed6 = parse_u256_field(buf, p5);
    let (value, p6) = match parsed6 {
        Some(x) => x,
        None => {
            proof {
                assert forall|tx: TxDawnEncrypted, rest: Seq<u8>| buf@ == #[trigger] (tx_fields_rlp(
                    tx,
                ) + rest) implies false by {
                    lemma_fields_prefixes(tx, rest, buf@);
                    assert(is_prefix(rlp_u64_spec(tx.chain_id), buf@.skip(0)));
                    assert(is_prefix(rlp_u64_spec(tx.nonce), buf@.skip(p1 as int)));
                    assert(is_prefix(rlp_u128_spec(tx.max_priority_fee_per_gas), buf@.skip(p2 as int)));
                    assert(is_prefix(rlp_u128_spec(tx.max_fee_per_gas), buf@.skip(p3 as int)));
                    assert(is_prefix(rlp_u64_spec(tx.gas_limit), buf@.skip(p4 as int)));
                    assert(is_prefix(rlp_u256_spec(tx.value), buf@.skip(p5 as int)));
                }
            }
            return None;
        },
    };
    proof {
        assert(buf@.take(p6 as int) =~= buf@.subrange(0, p1 as int) + buf@.subrange(
            p1 as int,
            p2 as int,
        ) + buf@.subrange(p2 as int, p3 as int) + buf@.subrange(p3 as int, p4 as int)
            + buf@.subrange(p4 as int, p5 as int) + buf@.subrange(p5 as int, p6 as int));
        assert forall|tx: TxDawnEncrypted, rest: Seq<u8>| buf@ == #[trigger] (tx_fields_rlp(
            tx,
        ) + rest) implies chain_id == tx.chain_id && nonce == tx.nonce
            && max_priority_fee_per_gas == tx.max_priority_fee_per_gas && max_fee_per_gas
            == tx.max_fee_per_gas && gas_limit == tx.gas_limit && value == tx.value && p6
            == rlp_u64_spec(tx.chain_id).len() + rlp_u64_spec(tx.nonce).len() + rlp_u128_spec(
            tx.max_priority_fee_per_gas,
        ).len() + rlp_u128_spec(tx.max_fee_per_gas).len() + rlp_u64_spec(tx.gas_limit).len()
            + rlp_u256_spec(tx.value).len() by {
            lemma_fields_prefixes(tx, rest, buf@);
            assert(is_prefix(rlp_u64_spec(tx.chain_id), buf@.skip(0)));
            assert(is_prefix(rlp_u64_spec(tx.nonce), buf@.skip(p1 as int)));
            assert(is_prefix(rlp_u128_spec(tx.max_priority_fee_per_gas), buf@.skip(p2 as int)));
            assert(is_prefix(rlp_u128_spec(tx.max_fee_per_gas), buf@.skip(p3 as int)));
            assert(is_prefix(rlp_u64_spec(tx.gas_limit), buf@.skip(p4 as int)));
            assert(is_prefix(rlp_u256_spec(tx.value), buf@.skip(p5 as int)));
        }
    }
    Some(((chain_id, nonce, max_priority_fee_per_gas, max_fee_per_gas, gas_limit, value), p6))
}

/// Decode the fields of an encrypted transaction from the start of `buf`,
/// in wire order, with no surrounding list header. Returns the transaction
/// and the number of bytes consumed. Whatever is returned re-encodes
/// exactly to the consumed prefix, so only canonical encodings of valid
/// transactions are accepted; and the encoding of any transaction whose
/// ephemeral public key bytes decode as a G2 point - every transaction the
/// library can build - is accepted.
#[verifier::rlimit(100)]
pub fn decode_inner(buf: &[u8]) -> (r: Option<(TxDawnEncrypted, usize)>)
    ensures
        r matches Some((tx, n)) ==> n <= buf@.len() && buf@.take(n as int) == tx_fields_rlp(tx),
        forall|tx: TxDawnEncrypted, rest: Seq<u8>|
            (buf@ == #[trigger] (tx_fields_rlp(tx) + rest) && crate::bls::g2_ok(
                tx.ciphertext.u@,
            )) ==> r is Some,
{
    let front = decode_front(buf);
    let ((chain_id, nonce, max_priority_fee_per_gas, max_fee_per_gas, gas_limit, value), p6) =
        match front {
        Some(x) => x,
        None => {
            return None;
        },
    };
    let parsed7 = parse_access_list_field(buf, p6);
    let (access_list, p7) = match parsed7 {
        Some(x) => x,
        None => {
            proof {
                assert forall|tx: TxDawnEncrypted, rest: Seq<u8>| (buf@ == #[trigger] (tx_fields_rlp(
                    tx,
                ) + rest) && crate::bls::g2_ok(tx.ciphertext.u@)) implies false by {
                    lemma_fields_prefixes(tx, rest, buf@);
                    lemma_tx_view_wf(tx.access_list);
                    crate::encapsulate::lemma_epk_view_len(tx.ciphertext.u);
                    assert(list_match(access_list_view(tx.access_list), buf@, p6 as int));
                }
            }
            return None;
        },
    };
    let parsed8 = parse_str_field(buf, p7);
    let (u_payload, p8) = match parsed8 {
        Some(x) => x,
        None => {
            proof {
                assert forall|tx: TxDawnEncrypted, rest: Seq<u8>| (buf@ == #[trigger] (tx_fields_rlp(
                    tx,
                ) + rest) && crate::bls::g2_ok(tx.ciphertext.u@)) implies false by {
                    lemma_fields_prefixes(tx, rest, buf@);
                    lemma_tx_view_wf(tx.access_list);
                    crate::encapsulate::lemma_epk_view_len(tx.ciphertext.u);
                    assert(list_match(access_list_view(tx.access_list), buf@, p6 as int));
                    assert(is_prefix(rlp_str_spec(tx.ciphertext.u@), buf@.skip(p7 as int)));
                }
            }
            return None;
        },
    };
    if u_payload.len() != 96 {
        proof {
            assert forall|tx: TxDawnEncrypted, rest: Seq<u8>| (buf@ == #[trigger] (tx_fields_rlp(
                tx,
            ) + rest) && crate::bls::g2_ok(tx.ciphertext.u@)) implies false by {
                lemma_fields_prefixes(tx, rest, buf@);
                lemma_tx_view_wf(tx.access_list);
                crate::encapsulate::lemma_epk_view_len(tx.ciphertext.u);
                assert(list_match(access_list_view(tx.access_list), buf@, p6 as int));
                assert(is_prefix(rlp_str_spec(tx.ciphertext.u@), buf@.skip(p7 as int)));
            }
        }
        return None;
    }
    let parsed_u = EphemeralPublicKey::from_bytes(array96_from(u_payload.as_slice()));
    let u = match parsed_u {
        Some(u) => u,
        None => {
            proof {
                assert forall|tx: TxDawnEncrypted, rest: Seq<u8>| (buf@ == #[trigger] (tx_fields_rlp(
                    tx,
                ) + rest) && crate::bls::g2_ok(tx.ciphertext.u@)) implies false by {
                    lemma_fields_prefixes(tx, rest, buf@);
                    lemma_tx_view_wf(tx.access_list);
                    crate::encapsulate::lemma_epk_view_len(tx.ciphertext.u);
                    assert(list_match(access_list_view(tx.access_list), buf@, p6 as int));
                    assert(is_prefix(rlp_str_spec(tx.ciphertext.u@), buf@.skip(p7 as int)));
                }
            }
            return None;
        },
    };
    let parsed9 = parse_str_field(buf, p8);
    let (payload, p9) = match parsed9 {
        Some(x) => x,
        None => {
            proof {
                assert forall|tx: TxDawnEncrypted, rest: Seq<u8>| (buf@ == #[trigger] (tx_fields_rlp(
                    tx,
                ) + rest) && crate::bls::g2_ok(tx.ciphertext.u@)) implies false by {
                    lemma_fields_prefixes(tx, rest, buf@);
                    lemma_tx_view_wf(tx.access_list);
                    crate::encapsulate::lemma_epk_view_len(tx.ciphertext.u);
                    assert(list_match(access_list_view(tx.access_list), buf@, p6 as int));
                    assert(is_prefix(rlp_str_spec(tx.ciphertext.u@), buf@.skip(p7 as int)));
                    assert(is_prefix(rlp_str_spec(tx.ciphertext.payload@), buf@.skip(p8 as int)));
                }
            }
            return None;
        },
    };
    let parsed10 = parse_str_field(buf, p9);
    let (tag_payload, p10) = match parsed10 {
        Some(x) => x,
        None => {
            proof {
                assert forall|tx: TxDawnEncrypted, rest: Seq<u8>| (buf@ == #[trigger] (tx_fields_rlp(
                    tx,
                ) + rest) && crate::bls::g2_ok(tx.ciphertext.u@)) implies false by {
                    lemma_fields_prefixes(tx, rest, buf@);
                    lemma_tx_view_wf(tx.access_list);
                    crate::encapsulate::lemma_epk_view_len(tx.ciphertext.u);
                    assert(list_match(access_list_view(tx.access_list), buf@, p6 as int));
                    assert(is_prefix(rlp_str_spec(tx.ciphertext.u@), buf@.skip(p7 as int)));
                    assert(is_prefix(rlp_str_spec(tx.ciphertext.payload@), buf@.skip(p8 as int)));
                    assert(is_prefix(rlp_str_spec(tx.ciphertext.tag@), buf@.skip(p9 as int)));
                }
            }
            return None;
        },
    };
    if tag_payload.len() != 16 {
        proof {
            assert forall|tx: TxDawnEncrypted, rest: Seq<u8>| (buf@ == #[trigger] (tx_fields_rlp(
                tx,
            ) + rest) && crate::bls::g2_ok(tx.ciphertext.u@)) implies false by {
                lemma_fields_prefixes(tx, rest, buf@);
                lemma_tx_view_wf(tx.access_list);
                crate::encapsulate::lemma_epk_view_len(tx.ciphertext.u);
                assert(list_match(access_list_view(tx.access_list), buf@, p6 as int));
                assert(is_prefix(rlp_str_spec(tx.ciphertext.u@), buf@.skip(p7 as int)));
                assert(is_prefix(rlp_str_spec(tx.ciphertext.payload@), buf@.skip(p8 as int)));
                assert(is_prefix(rlp_str_spec(tx.ciphertext.tag@), buf@.skip(p9 as int)));
            }
        }
        return None;
    }
    let tag = array16_from(tag_payload.as_slice());
    let tx = TxDawnEncrypted {
        chain_id,
        nonce,
        gas_limit,
        max_fee_per_gas,
        max_priority_fee_per_gas,
        value,
        access_list,
        ciphertext: Ciphertext { u, payload, tag },
    };
    proof {
        assert(buf@.take(p10 as int) =~= buf@.take(p6 as int) + buf@.subrange(
            p6 as int,
            p7 as int,
        ) + buf@.subrange(p7 as int, p8 as int) + buf@.subrange(p8 as int, p9 as int)
            + buf@.subrange(p9 as int, p10 as int));
        assert(buf@.take(p10 as int) == tx_fields_rlp(tx));
    }
    Some((tx, p10))
}

/// Every access list of the library has 20-byte addresses and 32-byte
/// storage keys.
proof fn lemma_tx_view_wf(al: AccessList)
    ensures
        access_view_wf(access_list_view(al)),
{
    assert forall|i: int| 0 <= i < access_list_view(al).len() implies item_view_wf(
        #[trigger] access_list_view(al)[i],
    ) by {
        assert(access_list_view(al)[i].0 == al.items@[i].address@);
        assert forall|j: int| 0 <= j < access_list_view(al)[i].1.len() implies (
        #[trigger] access_list_view(al)[i].1[j]).len() == 32 by {
            assert(access_list_view(al)[i].1[j] == al.items@[i].storage_keys@[j]@);
        }
    }
}

/// How the ten field encodings of a transaction line up inside a buffer
/// that starts with them.
#[verifier::rlimit(100)]
proof fn lemma_fields_prefixes(tx: TxDawnEncrypted, rest: Seq<u8>, b: Seq<u8>)
    requires
        b == tx_fields_rlp(tx) + rest,
    ensures
        ({
            let e1 = rlp_u64_spec(tx.chain_id);
            let e2 = rlp_u64_spec(tx.nonce);
            let e3 = rlp_u128_spec(tx.max_priority_fee_per_gas);
            let e4 = rlp_u128_spec(tx.max_fee_per_gas);
            let e5 = rlp_u64_spec(tx.gas_limit);
            let e6 = rlp_u256_spec(tx.value);
            let e7 = rlp_access_list_spec(access_list_view(tx.access_list));
            let e8 = rlp_str_spec(tx.ciphertext.u@);
            let e9 = rlp_str_spec(tx.ciphertext.payload@);
            let e10 = rlp_str_spec(tx.ciphertext.tag@);
            &&& is_prefix(e1, b.skip(0))
            &&& is_prefix(e2, b.skip(e1.len() as int))
            &&& is_prefix(e3, b.skip((e1.len() + e2.len()) as int))
            &&& is_prefix(e4, b.skip((e1.len() + e2.len() + e3.len()) as int))
            &&& is_prefix(e5, b.skip((e1.len() + e2.len() + e3.len() + e4.len()) as int))
            &&& is_prefix(e6, b.skip((e1.len() + e2.len() + e3.len() + e4.len() + e5.len()) as int))
            &&& is_prefix(
                e7,
                b.skip((e1.len() + e2.len() + e3.len() + e4.len() + e5.len() + e6.len()) as int),
            )
            &&& is_prefix(
                e8,
                b.skip((
                    e1.len() + e2.len() + e3.len() + e4.len() + e5.len() + e6.len() + e7.len()) as int),
            )
            &&& is_prefix(
                e9,
                b.skip((
                    e1.len() + e2.len() + e3.len() + e4.len() + e5.len() + e6.len() + e7.len()
                        + e8.len()) as int),
            )
            &&& is_prefix(
                e10,
                b.skip((
                    e1.len() + e2.len() + e3.len() + e4.len() + e5.len() + e6.len() + e7.len()
                        + e8.len() + e9.len()) as int),
            )
        }),
{
    let e1 = rlp_u64_spec(tx.chain_id);
    let e2 = rlp_u64_spec(tx.nonce);
    let e3 = rlp_u128_spec(tx.max_priority_fee_per_gas);
    let e4 = rlp_u128_spec(tx.max_fee_per_gas);
    let e5 = rlp_u64_spec(tx.gas_limit);
    let e6 = rlp_u256_spec(tx.value);
    let e7 = rlp_access_list_spec(access_list_view(tx.access_list));
    let e8 = rlp_str_spec(tx.ciphertext.u@);
    let e9 = rlp_str_spec(tx.ciphertext.payload@);
    let e10 = rlp_str_spec(tx.ciphertext.tag@);
    let t10 = e10 + rest;
    let t9 = e9 + t10;
    let t8 = e8 + t9;
    let t7 = e7 + t8;
    let t6 = e6 + t7;
    let t5 = e5 + t6;
    let t4 = e4 + t5;
    let t3 = e3 + t4;
    let t2 = e2 + t3;
    let t1 = e1 + t2;
    lemma_add_assoc(
        e1 + e2 + e3 + e4 + e5 + e6 + e7 + e8 + e9,
        e10,
        rest,
    );
    lemma_add_assoc(e1 + e2 + e3 + e4 + e5 + e6 + e7 + e8, e9, t10);
    lemma_add_assoc(e1 + e2 + e3 + e4 + e5 + e6 + e7, e8, t9);
    lemma_add_assoc(e1 + e2 + e3 + e4 + e5 + e6, e7, t8);
    lemma_add_assoc(e1 + e2 + e3 + e4 + e5, e6, t7);
    lemma_add_assoc(e1 + e2 + e3 + e4, e5, t6);
    lemma_add_assoc(e1 + e2 + e3, e4, t5);
    lemma_add_assoc(e1 + e2, e3, t4);
    lemma_add_assoc(e1, e2, t3);
    assert(b == t1);
    assert(b.take(b.len() as int) =~= b);
    assert(is_prefix(t1, b));
    assert(b.skip(0) =~= b);
    lemma_prefix_head(e1, t2, b);
    lemma_prefix_skip(e1, t2, b);
    lemma_prefix_head(e2, t3, b.skip(e1.len() as int));
    lemma_prefix_skip(e2, t3, b.skip(e1.len() as int));
    assert(b.skip(e1.len() as int).skip(e2.len() as int) =~= b.skip((e1.len() + e2.len()) as int));
    lemma_prefix_head(e3, t4, b.skip((e1.len() + e2.len()) as int));
    lemma_prefix_skip(e3, t4, b.skip((e1.len() + e2.len()) as int));
    assert(b.skip((e1.len() + e2.len()) as int).skip(e3.len() as int) =~= b.skip((
        e1.len() + e2.len() + e3.len()) as int));
    lemma_prefix_head(e4, t5, b.skip((e1.len() + e2.len() + e3.len()) as int));
    lemma_prefix_skip(e4, t5, b.skip((e1.len() + e2.len() + e3.len()) as int));
    assert(b.skip((e1.len() + e2.len() + e3.len()) as int).skip(e4.len() as int) =~= b.skip((
        e1.len() + e2.len() + e3.len() + e4.len()) as int));
    lemma_prefix_head(e5, t6, b.skip((e1.len() + e2.len() + e3.len() + e4.len()) as int));
    lemma_prefix_skip(e5, t6, b.skip((e1.len() + e2.len() + e3.len() + e4.len()) as int));
    assert(b.skip((e1.len() + e2.len() + e3.len() + e4.len()) as int).skip(e5.len() as int) =~= b.skip((
        e1.len() + e2.len() + e3.len() + e4.len() + e5.len()) as int));
    lemma_prefix_head(e6, t7, b.skip((e1.len() + e2.len() + e3.len() + e4.len() + e5.len()) as int));
    lemma_prefix_skip(e6, t7, b.skip((e1.len() + e2.len() + e3.len() + e4.len() + e5.len()) as int));
    assert(b.skip((e1.len() + e2.len() + e3.len() + e4.len() + e5.len()) as int).skip(e6.len() as int)
        =~= b.skip((e1.len() + e2.len() + e3.len() + e4.len() + e5.len() + e6.len()) as int));
    let q6 = e1.len() + e2.len() + e3.len() + e4.len() + e5.len() + e6.len();
    lemma_prefix_head(e7, t8, b.skip((q6) as int));
    lemma_prefix_skip(e7, t8, b.skip((q6) as int));
    assert(b.skip((q6) as int).skip(e7.len() as int) =~= b.skip((q6 + e7.len()) as int));
    lemma_prefix_head(e8, t9, b.skip((q6 + e7.len()) as int));
    lemma_prefix_skip(e8, t9, b.skip((q6 + e7.len()) as int));
    assert(b.skip((q6 + e7.len()) as int).skip(e8.len() as int) =~= b.skip((q6 + e7.len() + e8.len()) as int));
    lemma_prefix_head(e9, t10, b.skip((q6 + e7.len() + e8.len()) as int));
    lemma_prefix_skip(e9, t10, b.skip((q6 + e7.len() + e8.len()) as int));
    assert(b.skip((q6 + e7.len() + e8.len()) as int).skip(e9.len() as int) =~= b.skip((
        q6 + e7.len() + e8.len() + e9.len()) as int));
    lemma_prefix_head(e10, rest, b.skip((q6 + e7.len() + e8.len() + e9.len()) as int));
}

} // verus!
