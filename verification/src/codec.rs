//! Canonical binary encoding of every instruction payload and of the
//! contract union: little-endian fixed-width integers, length-prefixed
//! UTF-8 strings and byte strings (the length prefix in the four-mode
//! compact form), and a leading tag byte for the union, in declaration
//! order. Encoding is canonical — one logical value, one byte sequence —
//! and decoding accepts exactly the encodings, so values round-trip and
//! malformed bytes are rejected with a typed error.

use vstd::prelude::*;

use crate::account::{
    AddSignatory, AddSignatoryV, AppendRole, AppendRoleV, CreateAccount, CreateAccountV,
    CreateRole, CreateRoleV,
};
use crate::asset::{
    AddAssetQuantity, AddAssetQuantityV, CreateAsset, CreateAssetV, TransferAsset, TransferAssetV,
};
use crate::domain::{CreateDomain, CreateDomainV};
use crate::isi::{Contract, ContractV, Id, IdV};
use crate::peer::{AddPeer, AddPeerV};
use vstd::utf8::{decode_utf8, encode_utf8, valid_utf8};

verus! {

/// Decoding failed: the input is not the encoding of any value of the
/// requested type.
#[derive(Clone, Debug, PartialEq, Eq)]
pub struct DecodeError;

// ---------------------------------------------------------------------------
// Specification of the wire format
// ---------------------------------------------------------------------------

/// 256 to the power `n`: the number of values of an `n`-byte field.
pub open spec fn pow256(n: nat) -> nat
    decreases n,
{
    if n == 0 {
        1
    } else {
        256 * pow256((n - 1) as nat)
    }
}

/// The `n` little-endian bytes of `x`.
pub open spec fn le_bytes(x: nat, n: nat) -> Seq<u8>
    decreases n,
{
    if n == 0 {
        Seq::empty()
    } else {
        seq![(x % 256) as u8] + le_bytes(x / 256, (n - 1) as nat)
    }
}

/// The compact length prefix: two low bits of the first byte select the
/// width, the remaining bits carry the low end of the value.
pub open spec fn enc_compact(n: nat) -> Seq<u8> {
    if n < 64 {
        seq![(n * 4) as u8]
    } else if n < 16384 {
        le_bytes(n * 4 + 1, 2)
    } else if n < 0x40000000 {
        le_bytes(n * 4 + 2, 4)
    } else {
        seq![3u8] + le_bytes(n, 4)
    }
}

/// A byte string: its length in compact form, then the bytes themselves.
pub open spec fn enc_bytes(b: Seq<u8>) -> Seq<u8> {
    enc_compact(b.len()) + b
}

/// A string: its UTF-8 encoding as a byte string.
pub open spec fn enc_str(s: Seq<char>) -> Seq<u8> {
    enc_bytes(encode_utf8(s))
}

/// A 128-bit quantity: sixteen little-endian bytes.
pub open spec fn enc_u128(x: u128) -> Seq<u8> {
    le_bytes(x as nat, 16)
}

/// An identifier: entity name, then domain name.
pub open spec fn enc_id(i: IdV) -> Seq<u8> {
    enc_str(i.name) + enc_str(i.domain)
}

/// Whether a string can be encoded: its UTF-8 form must fit the length
/// prefix.
pub open spec fn str_encodable(s: Seq<char>) -> bool {
    encode_utf8(s).len() <= u32::MAX
}

pub open spec fn bytes_encodable(b: Seq<u8>) -> bool {
    b.len() <= u32::MAX
}

pub open spec fn id_encodable(i: IdV) -> bool {
    str_encodable(i.name) && str_encodable(i.domain)
}

pub open spec fn enc_add_asset_quantity(v: AddAssetQuantityV) -> Seq<u8> {
    enc_id(v.asset_id) + enc_id(v.account_id) + enc_u128(v.amount)
}

pub open spec fn add_asset_quantity_encodable(v: AddAssetQuantityV) -> bool {
    id_encodable(v.asset_id) && id_encodable(v.account_id)
}

pub open spec fn enc_create_asset(v: CreateAssetV) -> Seq<u8> {
    enc_str(v.asset_name) + enc_str(v.domain_id) + seq![v.decimals]
}

pub open spec fn create_asset_encodable(v: CreateAssetV) -> bool {
    str_encodable(v.asset_name) && str_encodable(v.domain_id)
}

pub open spec fn enc_transfer_asset(v: TransferAssetV) -> Seq<u8> {
    enc_id(v.source_account_id) + enc_id(v.destination_account_id) + enc_id(v.asset_id) + enc_str(
        v.description,
    ) + enc_u128(v.amount)
}

pub open spec fn transfer_asset_encodable(v: TransferAssetV) -> bool {
    id_encodable(v.source_account_id) && id_encodable(v.destination_account_id) && id_encodable(
        v.asset_id,
    ) && str_encodable(v.description)
}

pub open spec fn enc_add_signatory(v: AddSignatoryV) -> Seq<u8> {
    enc_id(v.account_id) + enc_bytes(v.public_key)
}

pub open spec fn add_signatory_encodable(v: AddSignatoryV) -> bool {
    id_encodable(v.account_id) && bytes_encodable(v.public_key)
}

pub open spec fn enc_append_role(v: AppendRoleV) -> Seq<u8> {
    enc_id(v.account_id) + enc_str(v.role_name)
}

pub open spec fn append_role_encodable(v: AppendRoleV) -> bool {
    id_encodable(v.account_id) && str_encodable(v.role_name)
}

pub open spec fn enc_create_account(v: CreateAccountV) -> Seq<u8> {
    enc_id(v.account_id)
}

pub open spec fn create_account_encodable(v: CreateAccountV) -> bool {
    id_encodable(v.account_id)
}

pub open spec fn enc_create_role(v: CreateRoleV) -> Seq<u8> {
    enc_str(v.role_name)
}

pub open spec fn create_role_encodable(v: CreateRoleV) -> bool {
    str_encodable(v.role_name)
}

pub open spec fn enc_create_domain(v: CreateDomainV) -> Seq<u8> {
    enc_str(v.domain_name)
}

pub open spec fn create_domain_encodable(v: CreateDomainV) -> bool {
    str_encodable(v.domain_name)
}

pub open spec fn enc_add_peer(v: AddPeerV) -> Seq<u8> {
    enc_str(v.address)
}

pub open spec fn add_peer_encodable(v: AddPeerV) -> bool {
    str_encodable(v.address)
}

/// The wire tag of each contract variant: its position in declaration
/// order, which must stay stable once published.
pub open spec fn tag_of(c: ContractV) -> u8 {
    match c {
        ContractV::AddSignatory(_) => 0,
        ContractV::AppendRole(_) => 1,
        ContractV::CreateAccount(_) => 2,
        ContractV::CreateRole(_) => 3,
        ContractV::AddAssetQuantity(_) => 4,
        ContractV::TransferAsset(_) => 5,
        ContractV::CreateAsset(_) => 6,
        ContractV::CreateDomain(_) => 7,
        ContractV::AddPeer(_) => 8,
    }
}

/// The encoding of the variant's payload alone.
pub open spec fn enc_payload(c: ContractV) -> Seq<u8> {
    match c {
        ContractV::AddSignatory(v) => enc_add_signatory(v),
        ContractV::AppendRole(v) => enc_append_role(v),
        ContractV::CreateAccount(v) => enc_create_account(v),
        ContractV::CreateRole(v) => enc_create_role(v),
        ContractV::AddAssetQuantity(v) => enc_add_asset_quantity(v),
        ContractV::TransferAsset(v) => enc_transfer_asset(v),
        ContractV::CreateAsset(v) => enc_create_asset(v),
        ContractV::CreateDomain(v) => enc_create_domain(v),
        ContractV::AddPeer(v) => enc_add_peer(v),
    }
}

/// The contract on the wire: a tag byte in declaration order, then the
/// variant's payload.
pub open spec fn enc_contract(c: ContractV) -> Seq<u8> {
    seq![tag_of(c)] + enc_payload(c)
}

pub open spec fn contract_encodable(c: ContractV) -> bool {
    match c {
        ContractV::AddSignatory(v) => add_signatory_encodable(v),
        ContractV::AppendRole(v) => append_role_encodable(v),
        ContractV::CreateAccount(v) => create_account_encodable(v),
        ContractV::CreateRole(v) => create_role_encodable(v),
        ContractV::AddAssetQuantity(v) => add_asset_quantity_encodable(v),
        ContractV::TransferAsset(v) => transfer_asset_encodable(v),
        ContractV::CreateAsset(v) => create_asset_encodable(v),
        ContractV::CreateDomain(v) => create_domain_encodable(v),
        ContractV::AddPeer(v) => add_peer_encodable(v),
    }
}

// ---------------------------------------------------------------------------
// Arithmetic and length facts
// ---------------------------------------------------------------------------

pub proof fn lemma_pow256_values()
    ensures
        pow256(1) == 0x100,
        pow256(2) == 0x10000,
        pow256(4) == 0x100000000,
        pow256(15) == 0x1000000000000000000000000000000,
        pow256(16) == 0x100000000000000000000000000000000,
{
    reveal_with_fuel(pow256, 17);
}

pub proof fn lemma_le_bytes_len(x: nat, n: nat)
    ensures
        le_bytes(x, n).len() == n,
    decreases n,
{
    if n > 0 {
        lemma_le_bytes_len(x / 256, (n - 1) as nat);
    }
}

pub proof fn lemma_le_bytes_first(x: nat, n: nat)
    requires
        n > 0,
    ensures
        le_bytes(x, n).len() == n,
        le_bytes(x, n)[0] == x % 256,
    decreases n,
{
    lemma_le_bytes_len(x, n);
}

/// Little-endian bytes determine the value, below the width's bound.
pub proof fn lemma_le_bytes_injective(a: nat, b: nat, n: nat)
    requires
        a < pow256(n),
        b < pow256(n),
        le_bytes(a, n) == le_bytes(b, n),
    ensures
        a == b,
    decreases n,
{
    if n == 0 {
    } else {
        lemma_le_bytes_len(a / 256, (n - 1) as nat);
        lemma_le_bytes_len(b / 256, (n - 1) as nat);
        assert(le_bytes(a, n)[0] == a % 256);
        assert(le_bytes(b, n)[0] == b % 256);
        assert(le_bytes(a, n).subrange(1, n as int) =~= le_bytes(a / 256, (n - 1) as nat));
        assert(le_bytes(b, n).subrange(1, n as int) =~= le_bytes(b / 256, (n - 1) as nat));
        assert(a / 256 < pow256((n - 1) as nat) && b / 256 < pow256((n - 1) as nat)) by {
            lemma_div_bound(a, (n - 1) as nat);
            lemma_div_bound(b, (n - 1) as nat);
        }
        lemma_le_bytes_injective(a / 256, b / 256, (n - 1) as nat);
    }
}

proof fn lemma_div_bound(a: nat, m: nat)
    requires
        a < 256 * pow256(m),
    ensures
        a / 256 < pow256(m),
{
    assert(a / 256 < pow256(m)) by (nonlinear_arith)
        requires
            a < 256 * pow256(m),
    ;
}

/// The remainder modulo 4 survives truncation to a byte.
pub proof fn lemma_mod256_mod4(x: nat)
    ensures
        (x % 256) % 4 == x % 4,
{
    assert((x % 256) % 4 == x % 4) by (nonlinear_arith);
}

/// Width and first byte of the compact form, by size class.
pub proof fn lemma_compact_shape(m: nat)
    requires
        m <= u32::MAX,
    ensures
        enc_compact(m).len() == (if m < 64 {
            1int
        } else if m < 16384 {
            2int
        } else if m < 0x40000000 {
            4int
        } else {
            5int
        }),
        enc_compact(m)[0] % 4 == (if m < 64 {
            0int
        } else if m < 16384 {
            1int
        } else if m < 0x40000000 {
            2int
        } else {
            3int
        }),
{
    if m < 64 {
        assert(((m * 4) as u8) % 4 == 0);
    } else if m < 16384 {
        lemma_le_bytes_first(m * 4 + 1, 2);
        lemma_mod256_mod4(m * 4 + 1);
        assert((m * 4 + 1) % 4 == 1) by (nonlinear_arith);
    } else if m < 0x40000000 {
        lemma_le_bytes_first(m * 4 + 2, 4);
        lemma_mod256_mod4(m * 4 + 2);
        assert((m * 4 + 2) % 4 == 2) by (nonlinear_arith);
    } else {
        lemma_le_bytes_len(m, 4);
    }
}

/// UTF-8 uses between one and four bytes for each character.
pub proof fn lemma_encode_utf8_len(s: Seq<char>)
    ensures
        s.len() <= encode_utf8(s).len() <= 4 * s.len(),
    decreases s.len(),
{
    if s.len() > 0 {
        lemma_encode_utf8_len(s.drop_first());
    }
}

/// Splitting a matched concatenation into its matched parts.
pub proof fn lemma_subrange_concat(b: Seq<u8>, pos: int, x: Seq<u8>, y: Seq<u8>)
    requires
        0 <= pos,
        pos + x.len() + y.len() <= b.len(),
        b.subrange(pos, pos + x.len() + y.len()) == x + y,
    ensures
        b.subrange(pos, pos + x.len() as int) == x,
        b.subrange(pos + x.len() as int, pos + x.len() + y.len()) == y,
{
    let s = b.subrange(pos, pos + x.len() + y.len());
    assert forall|i: int| 0 <= i < x.len() implies b[pos + i] == x[i] by {
        assert(s[i] == (x + y)[i]);
    }
    assert forall|i: int| 0 <= i < y.len() implies b[pos + x.len() + i] == y[i] by {
        assert(s[x.len() + i] == (x + y)[x.len() + i]);
    }
    assert(b.subrange(pos, pos + x.len() as int) =~= x);
    assert(b.subrange(pos + x.len() as int, pos + x.len() + y.len()) =~= y);
}

// ---------------------------------------------------------------------------
// Encoders
// ---------------------------------------------------------------------------

/// Appends the `n` little-endian bytes of `x`.
fn put_le(out: &mut Vec<u8>, x: u128, n: usize)
    ensures
        final(out)@ == old(out)@ + le_bytes(x as nat, n as nat),
    decreases n,
{
    if n == 0 {
        proof {
            assert(final(out)@ =~= old(out)@ + le_bytes(x as nat, 0));
        }
    } else {
        let b: u8 = (x % 256) as u8;
        out.push(b);
        put_le(out, x / 256, n - 1);
        proof {
            assert(final(out)@ =~= old(out)@ + le_bytes(x as nat, n as nat));
        }
    }
}

/// Appends the compact form of `n`.
fn put_compact(out: &mut Vec<u8>, n: u32)
    ensures
        final(out)@ == old(out)@ + enc_compact(n as nat),
{
    if n < 64 {
        out.push((n * 4) as u8);
        proof {
            assert(final(out)@ =~= old(out)@ + enc_compact(n as nat));
        }
    } else if n < 16384 {
        put_le(out, (n * 4 + 1) as u128, 2);
    } else if n < 0x40000000 {
        put_le(out, (n * 4 + 2) as u128, 4);
    } else {
        out.push(3u8);
        put_le(out, n as u128, 4);
        proof {
            assert(final(out)@ =~= old(out)@ + enc_compact(n as nat));
        }
    }
}

/// Appends a length-prefixed byte string.
fn put_bytes(out: &mut Vec<u8>, b: &Vec<u8>)
    requires
        b@.len() <= u32::MAX,
    ensures
        final(out)@ == old(out)@ + enc_bytes(b@),
{
    put_compact(out, b.len() as u32);
    out.extend_from_slice(b.as_slice());
    proof {
        assert(final(out)@ =~= old(out)@ + enc_bytes(b@));
    }
}

/// Appends a length-prefixed UTF-8 string.
fn put_str(out: &mut Vec<u8>, s: &String)
    requires
        str_encodable(s@),
    ensures
        final(out)@ == old(out)@ + enc_str(s@),
{
    let bytes: &[u8] = s.as_str().as_bytes();
    put_compact(out, bytes.len() as u32);
    out.extend_from_slice(bytes);
    proof {
        assert(final(out)@ =~= old(out)@ + enc_str(s@));
    }
}

/// Appends an identifier: entity name, then domain name.
fn put_id(out: &mut Vec<u8>, id: &Id)
    requires
        id_encodable(id@),
    ensures
        final(out)@ == old(out)@ + enc_id(id@),
{
    put_str(out, &id.0);
    put_str(out, &id.1);
    proof {
        assert(final(out)@ =~= old(out)@ + enc_id(id@));
    }
}

/// Appends sixteen little-endian bytes.
fn put_u128(out: &mut Vec<u8>, x: u128)
    ensures
        final(out)@ == old(out)@ + enc_u128(x),
{
    put_le(out, x, 16);
}

/// Any string of fewer than 2^30 characters fits the length prefix.
pub proof fn lemma_short_string_encodable(s: Seq<char>)
    requires
        s.len() < 0x40000000,
    ensures
        str_encodable(s),
{
    lemma_encode_utf8_len(s);
}

pub proof fn lemma_pow256_pos(n: nat)
    ensures
        pow256(n) >= 1,
    decreases n,
{
    if n > 0 {
        lemma_pow256_pos((n - 1) as nat);
    }
}

pub proof fn lemma_pow256_mono(a: nat, b: nat)
    requires
        a <= b,
    ensures
        pow256(a) <= pow256(b),
    decreases b,
{
    if a < b {
        lemma_pow256_mono(a, (b - 1) as nat);
        lemma_pow256_pos((b - 1) as nat);
    }
}

// ---------------------------------------------------------------------------
// Decoders
//
// Each decoder is sound — a successful parse returns a value whose encoding
// is exactly the bytes consumed — and complete: whenever the input carries
// the encoding of some value at `pos`, that value (and no other) is
// returned. Together the two directions make decoding the exact inverse of
// encoding and pin down when a `DecodeError` is owed.
// ---------------------------------------------------------------------------

fn take_u8(bytes: &[u8], pos: usize) -> (r: Option<(u8, usize)>)
    ensures
        match r {
            Some((b, p)) => pos < bytes@.len() && b == bytes@[pos as int] && p == pos + 1,
            None => pos >= bytes@.len(),
        },
{
    if pos < bytes.len() {
        Some((bytes[pos], pos + 1))
    } else {
        None
    }
}

fn take_le(bytes: &[u8], pos: usize, n: usize) -> (r: Option<(u128, usize)>)
    requires
        n <= 16,
    ensures
        match r {
            Some((v, p)) => p == pos + n && p <= bytes@.len() && (v as nat) < pow256(n as nat)
                && le_bytes(v as nat, n as nat) == bytes@.subrange(pos as int, p as int),
            None => pos + n > bytes@.len(),
        },
    decreases n,
{
    if n == 0 {
        if pos <= bytes.len() {
            proof {
                assert(le_bytes(0, 0) =~= bytes@.subrange(pos as int, pos as int));
            }
            Some((0, pos))
        } else {
            None
        }
    } else {
        if pos >= bytes.len() {
            return None;
        }
        let b = bytes[pos];
        match take_le(bytes, pos + 1, n - 1) {
            None => None,
            Some((rest, p)) => {
                proof {
                    lemma_pow256_values();
                    lemma_pow256_mono((n - 1) as nat, 15);
                    assert(256 * (rest as nat) <= 256 * (pow256(15) - 1)) by (nonlinear_arith)
                        requires
                            (rest as nat) <= pow256(15) - 1,
                    ;
                }
                let v: u128 = (b as u128) + 256 * rest;
                proof {
                    assert((v as nat) % 256 == b && (v as nat) / 256 == rest as nat)
                        by (nonlinear_arith)
                        requires
                            v == b + 256 * (rest as u128),
                            b < 256,
                    ;
                    assert((v as nat) < pow256(n as nat)) by (nonlinear_arith)
                        requires
                            (v as nat) == b + 256 * (rest as nat),
                            b < 256,
                            (rest as nat) < pow256((n - 1) as nat),
                            pow256(n as nat) == 256 * pow256((n - 1) as nat),
                    ;
                    assert(le_bytes(v as nat, n as nat) =~= bytes@.subrange(
                        pos as int,
                        (pos + n) as int,
                    ));
                }
                Some((v, p))
            },
        }
    }
}

fn take_compact(bytes: &[u8], pos: usize) -> (r: Option<(u32, usize)>)
    ensures
        match r {
            Some((v, p)) => p == pos + enc_compact(v as nat).len() && p <= bytes@.len()
                && bytes@.subrange(pos as int, p as int) == enc_compact(v as nat),
            None => true,
        },
        forall|m: u32|
            (pos + enc_compact(m as nat).len() <= bytes@.len() && bytes@.subrange(
                pos as int,
                pos + enc_compact(m as nat).len(),
            ) == enc_compact(m as nat)) ==> (r matches Some((v2, p2)) && v2 == m && p2 == pos
                + enc_compact(m as nat).len()),
{
    if pos >= bytes.len() {
        proof {
            assert forall|m: u32| pos + enc_compact(m as nat).len() > bytes@.len() by {
                lemma_compact_shape(m as nat);
            }
        }
        return None;
    }
    let b0 = bytes[pos];
    let mode = b0 % 4;
    proof {
        assert forall|m: u32|
            (pos + enc_compact(m as nat).len() <= bytes@.len() && bytes@.subrange(
                pos as int,
                pos + enc_compact(m as nat).len(),
            ) == enc_compact(m as nat)) implies #[trigger] enc_compact(m as nat)[0] == b0 by {
            lemma_compact_shape(m as nat);
            assert(bytes@.subrange(pos as int, pos + enc_compact(m as nat).len())[0] == bytes@[
                pos as int
            ]);
        }
    }
    if mode == 0 {
        let v = (b0 / 4) as u32;
        proof {
            assert(v * 4 == b0);
            assert(bytes@.subrange(pos as int, pos + 1) =~= enc_compact(v as nat));
            assert forall|m: u32|
                (pos + enc_compact(m as nat).len() <= bytes@.len() && bytes@.subrange(
                    pos as int,
                    pos + enc_compact(m as nat).len(),
                ) == enc_compact(m as nat)) implies m == v by {
                lemma_compact_shape(m as nat);
                if m >= 64 {
                    assert(enc_compact(m as nat)[0] % 4 != 0);
                } else {
                    assert(enc_compact(m as nat)[0] == m * 4);
                }
            }
        }
        Some((v, pos + 1))
    } else if mode == 1 {
        match take_le(bytes, pos, 2) {
            None => {
                proof {
                    assert forall|m: u32|
                        !(pos + enc_compact(m as nat).len() <= bytes@.len() && bytes@.subrange(
                            pos as int,
                            pos + enc_compact(m as nat).len(),
                        ) == enc_compact(m as nat)) by {
                        lemma_compact_shape(m as nat);
                    }
                }
                None
            },
            Some((raw128, p)) => {
                let raw = raw128 as u32;
                proof {
                    lemma_pow256_values();
                    lemma_le_bytes_first(raw as nat, 2);
                    lemma_mod256_mod4(raw as nat);
                    assert((raw as nat) % 4 == 1);
                }
                let v = raw / 4;
                proof {
                    assert(v * 4 + 1 == raw);
                    if v >= 64 {
                        assert(bytes@.subrange(pos as int, pos + 2) =~= enc_compact(v as nat));
                    }
                    assert forall|m: u32|
                        (pos + enc_compact(m as nat).len() <= bytes@.len() && bytes@.subrange(
                            pos as int,
                            pos + enc_compact(m as nat).len(),
                        ) == enc_compact(m as nat)) implies (64 <= m && m == v) by {
                        lemma_compact_shape(m as nat);
                        if m < 64 {
                            assert(enc_compact(m as nat)[0] == m * 4);
                            assert(enc_compact(m as nat)[0] % 4 == 0);
                        } else if m < 16384 {
                            assert(bytes@.subrange(pos as int, pos + 2) =~= le_bytes(
                                (m as nat) * 4 + 1,
                                2,
                            ));
                            lemma_le_bytes_injective((m as nat) * 4 + 1, raw as nat, 2);
                        } else if m < 0x40000000 {
                            assert(enc_compact(m as nat)[0] % 4 == 2);
                        } else {
                            assert(enc_compact(m as nat)[0] % 4 == 3);
                        }
                    }
                }
                if v < 64 {
                    None
                } else {
                    Some((v, p))
                }
            },
        }
    } else if mode == 2 {
        match take_le(bytes, pos, 4) {
            None => {
                proof {
                    assert forall|m: u32|
                        !(pos + enc_compact(m as nat).len() <= bytes@.len() && bytes@.subrange(
                            pos as int,
                            pos + enc_compact(m as nat).len(),
                        ) == enc_compact(m as nat)) by {
                        lemma_compact_shape(m as nat);
                    }
                }
                None
            },
            Some((raw128, p)) => {
                let raw = raw128 as u32;
                proof {
                    lemma_pow256_values();
                    lemma_le_bytes_first(raw as nat, 4);
                    lemma_mod256_mod4(raw as nat);
                    assert((raw as nat) % 4 == 2);
                }
                let v = raw / 4;
                proof {
                    assert(v * 4 + 2 == raw);
                    if v >= 16384 {
                        assert(bytes@.subrange(pos as int, pos + 4) =~= enc_compact(v as nat));
                    }
                    assert forall|m: u32|
                        (pos + enc_compact(m as nat).len() <= bytes@.len() && bytes@.subrange(
                            pos as int,
                            pos + enc_compact(m as nat).len(),
                        ) == enc_compact(m as nat)) implies (16384 <= m && m == v) by {
                        lemma_compact_shape(m as nat);
                        if m < 64 {
                            assert(enc_compact(m as nat)[0] % 4 == 0);
                        } else if m < 16384 {
                            assert(enc_compact(m as nat)[0] % 4 == 1);
                        } else if m < 0x40000000 {
                            assert(bytes@.subrange(pos as int, pos + 4) =~= le_bytes(
                                (m as nat) * 4 + 2,
                                4,
                            ));
                            lemma_le_bytes_injective((m as nat) * 4 + 2, raw as nat, 4);
                        } else {
                            assert(enc_compact(m as nat)[0] % 4 == 3);
                        }
                    }
                }
                if v < 16384 {
                    None
                } else {
                    Some((v, p))
                }
            },
        }
    } else {
        proof {
            assert forall|m: u32|
                (pos + enc_compact(m as nat).len() <= bytes@.len() && bytes@.subrange(
                    pos as int,
                    pos + enc_compact(m as nat).len(),
                ) == enc_compact(m as nat)) implies ((m as nat) >= 0x40000000 && b0 == 3) by {
                lemma_compact_shape(m as nat);
                if m < 64 {
                    assert(enc_compact(m as nat)[0] % 4 == 0);
                } else if m < 16384 {
                    assert(enc_compact(m as nat)[0] % 4 == 1);
                } else if m < 0x40000000 {
                    assert(enc_compact(m as nat)[0] % 4 == 2);
                } else {
                    assert(enc_compact(m as nat)[0] == 3);
                }
            }
        }
        if b0 != 3 {
            return None;
        }
        match take_le(bytes, pos + 1, 4) {
            None => {
                proof {
                    assert forall|m: u32|
                        !(pos + enc_compact(m as nat).len() <= bytes@.len() && bytes@.subrange(
                            pos as int,
                            pos + enc_compact(m as nat).len(),
                        ) == enc_compact(m as nat)) by {
                        lemma_compact_shape(m as nat);
                    }
                }
                None
            },
            Some((raw128, p)) => {
                let v = raw128 as u32;
                proof {
                    lemma_pow256_values();
                    if v >= 0x40000000 {
                        assert(bytes@.subrange(pos as int, pos + 5) =~= enc_compact(v as nat));
                    }
                    assert forall|m: u32|
                        (pos + enc_compact(m as nat).len() <= bytes@.len() && bytes@.subrange(
                            pos as int,
                            pos + enc_compact(m as nat).len(),
                        ) == enc_compact(m as nat)) implies ((m as nat) >= 0x40000000 && m == v) by {
                        lemma_compact_shape(m as nat);
                        assert(bytes@.subrange(pos as int, pos + 5).subrange(1, 5) =~= bytes@
                            .subrange(pos + 1, pos + 5));
                        assert((seq![3u8] + le_bytes(m as nat, 4)).subrange(1, 5) =~= le_bytes(
                            m as nat,
                            4,
                        ));
                        lemma_le_bytes_injective(m as nat, v as nat, 4);
                    }
                }
                if v < 0x40000000 {
                    None
                } else {
                    Some((v, p))
                }
            },
        }
    }
}

fn take_u128(bytes: &[u8], pos: usize) -> (r: Option<(u128, usize)>)
    ensures
        match r {
            Some((v, p)) => p == pos + 16 && p <= bytes@.len() && bytes@.subrange(
                pos as int,
                p as int,
            ) == enc_u128(v),
            None => pos + 16 > bytes@.len(),
        },
        forall|x: u128|
            (pos + 16 <= bytes@.len() && bytes@.subrange(pos as int, pos + 16) == enc_u128(x))
                ==> (r matches Some((v2, p2)) && v2 == x && p2 == pos + 16),
{
    match take_le(bytes, pos, 16) {
        None => None,
        Some((v, p)) => {
            proof {
                lemma_pow256_values();
                assert forall|x: u128|
                    (pos + 16 <= bytes@.len() && bytes@.subrange(pos as int, pos + 16)
                        == enc_u128(x)) implies x == v by {
                    lemma_le_bytes_injective(x as nat, v as nat, 16);
                }
            }
            Some((v, p))
        },
    }
}

fn take_bytes(bytes: &[u8], pos: usize) -> (r: Option<(Vec<u8>, usize)>)
    ensures
        match r {
            Some((b, p)) => b@.len() <= u32::MAX && p == pos + enc_bytes(b@).len() && p
                <= bytes@.len() && bytes@.subrange(pos as int, p as int) == enc_bytes(b@),
            None => true,
        },
        forall|t: Seq<u8>|
            (t.len() <= u32::MAX && pos + enc_bytes(t).len() <= bytes@.len() && bytes@.subrange(
                pos as int,
                pos + enc_bytes(t).len(),
            ) == enc_bytes(t)) ==> (r matches Some((b2, p2)) && b2@ == t && p2 == pos + enc_bytes(
                t,
            ).len()),
{
    proof {
        assert forall|t: Seq<u8>|
            (t.len() <= u32::MAX && pos + enc_bytes(t).len() <= bytes@.len() && bytes@.subrange(
                pos as int,
                pos + enc_bytes(t).len(),
            ) == enc_bytes(t)) implies (pos + enc_compact(t.len()).len() <= bytes@.len()
            && bytes@.subrange(pos as int, pos + enc_compact(t.len()).len()) == enc_compact(
            t.len(),
        )) by {
            lemma_subrange_concat(bytes@, pos as int, enc_compact(t.len()), t);
        }
    }
    match take_compact(bytes, pos) {
        None => None,
        Some((n, p1)) => {
            let count = n as usize;
            if bytes.len() - p1 < count {
                proof {
                    assert forall|t: Seq<u8>|
                        !(t.len() <= u32::MAX && pos + enc_bytes(t).len() <= bytes@.len()
                            && bytes@.subrange(pos as int, pos + enc_bytes(t).len()) == enc_bytes(
                            t,
                        )) by {
                        if t.len() <= u32::MAX && pos + enc_bytes(t).len() <= bytes@.len()
                            && bytes@.subrange(pos as int, pos + enc_bytes(t).len()) == enc_bytes(
                            t,
                        ) {
                            lemma_subrange_concat(bytes@, pos as int, enc_compact(t.len()), t);
                        }
                    }
                }
                return None;
            }
            let end = p1 + count;
            let mut out: Vec<u8> = Vec::new();
            let mut i: usize = 0;
            while i < count
                invariant
                    i <= count,
                    end == p1 + count,
                    p1 + count <= bytes@.len(),
                    out@ == bytes@.subrange(p1 as int, p1 + i as int),
                decreases count - i,
            {
                out.push(bytes[p1 + i]);
                i = i + 1;
                proof {
                    assert(out@ =~= bytes@.subrange(p1 as int, p1 + i as int));
                }
            }
            let p2 = p1 + count;
            proof {
                assert(bytes@.subrange(pos as int, p2 as int) =~= enc_compact(n as nat) + out@);
                assert(enc_bytes(out@) == enc_compact(out@.len()) + out@);
                assert forall|t: Seq<u8>|
                    (t.len() <= u32::MAX && pos + enc_bytes(t).len() <= bytes@.len()
                        && bytes@.subrange(pos as int, pos + enc_bytes(t).len()) == enc_bytes(t))
                        implies (t == out@ && pos + enc_bytes(t).len() == p2) by {
                    lemma_subrange_concat(bytes@, pos as int, enc_compact(t.len()), t);
                    assert(t =~= out@);
                }
            }
            Some((out, p2))
        },
    }
}

/// Relies on `String::from_utf8`: returns the string whose UTF-8 encoding
/// is the given bytes, or nothing when the bytes are not valid UTF-8.
#[verifier::external_body]
fn string_from_utf8(bytes: Vec<u8>) -> (r: Option<String>)
    ensures
        match r {
            Some(s) => valid_utf8(bytes@) && s@ == decode_utf8(bytes@),
            None => !valid_utf8(bytes@),
        },
{
    match String::from_utf8(bytes) {
        Ok(s) => Some(s),
        Err(_) => None,
    }
}

fn take_str(bytes: &[u8], pos: usize) -> (r: Option<(String, usize)>)
    ensures
        match r {
            Some((s, p)) => str_encodable(s@) && p == pos + enc_str(s@).len() && p <= bytes@.len()
                && bytes@.subrange(pos as int, p as int) == enc_str(s@),
            None => true,
        },
        forall|t: Seq<char>|
            (str_encodable(t) && pos + enc_str(t).len() <= bytes@.len() && bytes@.subrange(
                pos as int,
                pos + enc_str(t).len(),
            ) == enc_str(t)) ==> (r matches Some((s2, p2)) && s2@ == t && p2 == pos + enc_str(
                t,
            ).len()),
{
    proof {
        assert forall|t: Seq<char>| str_encodable(t) implies (encode_utf8(t).len() <= u32::MAX
            && #[trigger] enc_str(t) == enc_bytes(encode_utf8(t))) by {}
    }
    match take_bytes(bytes, pos) {
        None => None,
        Some((vb, p)) => {
            let ghost vbs = vb@;
            match string_from_utf8(vb) {
                None => {
                    proof {
                        assert forall|t: Seq<char>|
                            !(str_encodable(t) && pos + enc_str(t).len() <= bytes@.len()
                                && bytes@.subrange(pos as int, pos + enc_str(t).len()) == enc_str(
                                t,
                            )) by {
                            if str_encodable(t) && pos + enc_str(t).len() <= bytes@.len()
                                && bytes@.subrange(pos as int, pos + enc_str(t).len()) == enc_str(
                                t,
                            ) {
                                assert(vbs == encode_utf8(t));
                                vstd::utf8::encode_utf8_valid_utf8(t);
                            }
                        }
                    }
                    None
                },
                Some(s) => {
                    proof {
                        vstd::utf8::decode_utf8_encode_utf8(vbs);
                        assert(encode_utf8(s@) == vbs);
                        assert forall|t: Seq<char>|
                            (str_encodable(t) && pos + enc_str(t).len() <= bytes@.len()
                                && bytes@.subrange(pos as int, pos + enc_str(t).len()) == enc_str(
                                t,
                            )) implies (s@ == t && pos + enc_str(t).len() == p) by {
                            assert(vbs == encode_utf8(t));
                            vstd::utf8::encode_utf8_decode_utf8(t);
                        }
                    }
                    Some((s, p))
                },
            }
        },
    }
}

fn take_id(bytes: &[u8], pos: usize) -> (r: Option<(Id, usize)>)
    ensures
        match r {
            Some((id, p)) => id_encodable(id@) && p == pos + enc_id(id@).len() && p
                <= bytes@.len() && bytes@.subrange(pos as int, p as int) == enc_id(id@),
            None => true,
        },
        forall|i: IdV|
            (id_encodable(i) && pos + enc_id(i).len() <= bytes@.len() && bytes@.subrange(
                pos as int,
                pos + enc_id(i).len(),
            ) == enc_id(i)) ==> (r matches Some((id2, p2)) && id2@ == i && p2 == pos + enc_id(
                i,
            ).len()),
{
    proof {
        assert forall|i: IdV|
            (id_encodable(i) && pos + enc_id(i).len() <= bytes@.len() && bytes@.subrange(
                pos as int,
                pos + enc_id(i).len(),
            ) == enc_id(i)) implies (pos + enc_str(i.name).len() <= bytes@.len()
            && bytes@.subrange(pos as int, pos + enc_str(i.name).len()) == enc_str(i.name)) by {
            lemma_subrange_concat(bytes@, pos as int, enc_str(i.name), enc_str(i.domain));
        }
    }
    match take_str(bytes, pos) {
        None => None,
        Some((name, p1)) => {
            proof {
                assert forall|i: IdV|
                    (id_encodable(i) && pos + enc_id(i).len() <= bytes@.len() && bytes@.subrange(
                        pos as int,
                        pos + enc_id(i).len(),
                    ) == enc_id(i)) implies (p1 + enc_str(i.domain).len() <= bytes@.len()
                    && bytes@.subrange(p1 as int, p1 + enc_str(i.domain).len()) == enc_str(
                    i.domain,
                ) && i.name == name@) by {
                    lemma_subrange_concat(bytes@, pos as int, enc_str(i.name), enc_str(i.domain));
                }
            }
            match take_str(bytes, p1) {
                None => None,
                Some((domain_name, p2)) => {
                    let id = Id(name, domain_name);
                    proof {
                        assert(bytes@.subrange(pos as int, p2 as int) =~= enc_str(id.0@) + enc_str(
                            id.1@,
                        ));
                        assert forall|i: IdV|
                            (id_encodable(i) && pos + enc_id(i).len() <= bytes@.len()
                                && bytes@.subrange(pos as int, pos + enc_id(i).len()) == enc_id(
                                i,
                            )) implies (id@ == i && p2 == pos + enc_id(i).len()) by {
                            assert(i =~= id@);
                        }
                    }
                    Some((id, p2))
                },
            }
        },
    }
}

fn put_add_asset_quantity(out: &mut Vec<u8>, v: &AddAssetQuantity)
    requires
        add_asset_quantity_encodable(v@),
    ensures
        final(out)@ == old(out)@ + enc_add_asset_quantity(v@),
{
    put_id(out, &v.asset_id);
    put_id(out, &v.account_id);
    put_u128(out, v.amount);
    proof {
        assert(final(out)@ =~= old(out)@ + enc_add_asset_quantity(v@));
    }
}

fn put_create_asset(out: &mut Vec<u8>, v: &CreateAsset)
    requires
        create_asset_encodable(v@),
    ensures
        final(out)@ == old(out)@ + enc_create_asset(v@),
{
    put_str(out, &v.asset_name);
    put_str(out, &v.domain_id);
    out.push(v.decimals);
    proof {
        assert(final(out)@ =~= old(out)@ + enc_create_asset(v@));
    }
}

fn put_transfer_asset(out: &mut Vec<u8>, v: &TransferAsset)
    requires
        transfer_asset_encodable(v@),
    ensures
        final(out)@ == old(out)@ + enc_transfer_asset(v@),
{
    put_id(out, &v.source_account_id);
    put_id(out, &v.destination_account_id);
    put_id(out, &v.asset_id);
    put_str(out, &v.description);
    put_u128(out, v.amount);
    proof {
        assert(final(out)@ =~= old(out)@ + enc_transfer_asset(v@));
    }
}

fn put_add_signatory(out: &mut Vec<u8>, v: &AddSignatory)
    requires
        add_signatory_encodable(v@),
    ensures
        final(out)@ == old(out)@ + enc_add_signatory(v@),
{
    put_id(out, &v.account_id);
    put_bytes(out, &v.public_key);
    proof {
        assert(final(out)@ =~= old(out)@ + enc_add_signatory(v@));
    }
}

fn put_append_role(out: &mut Vec<u8>, v: &AppendRole)
    requires
        append_role_encodable(v@),
    ensures
        final(out)@ == old(out)@ + enc_append_role(v@),
{
    put_id(out, &v.account_id);
    put_str(out, &v.role_name);
    proof {
        assert(final(out)@ =~= old(out)@ + enc_append_role(v@));
    }
}

fn put_create_account(out: &mut Vec<u8>, v: &CreateAccount)
    requires
        create_account_encodable(v@),
    ensures
        final(out)@ == old(out)@ + enc_create_account(v@),
{
    put_id(out, &v.account_id);
}

fn put_create_role(out: &mut Vec<u8>, v: &CreateRole)
    requires
        create_role_encodable(v@),
    ensures
        final(out)@ == old(out)@ + enc_create_role(v@),
{
    put_str(out, &v.role_name);
}

fn put_create_domain(out: &mut Vec<u8>, v: &CreateDomain)
    requires
        create_domain_encodable(v@),
    ensures
        final(out)@ == old(out)@ + enc_create_domain(v@),
{
    put_str(out, &v.domain_name);
}

fn put_add_peer(out: &mut Vec<u8>, v: &AddPeer)
    requires
        add_peer_encodable(v@),
    ensures
        final(out)@ == old(out)@ + enc_add_peer(v@),
{
    put_str(out, &v.address);
}

fn take_create_account(bytes: &[u8], pos: usize) -> (r: Option<(CreateAccount, usize)>)
    ensures
        match r {
            Some((x, p)) => create_account_encodable(x@) && p == pos + enc_create_account(
                x@,
            ).len() && p <= bytes@.len() && bytes@.subrange(pos as int, p as int)
                == enc_create_account(x@),
            None => true,
        },
        forall|v: CreateAccountV|
            (create_account_encodable(v) && pos + enc_create_account(v).len() <= bytes@.len()
                && bytes@.subrange(pos as int, pos + enc_create_account(v).len())
                == enc_create_account(v)) ==> (r matches Some((x2, p2)) && x2@ == v && p2 == pos
                + enc_create_account(v).len()),
{
    match take_id(bytes, pos) {
        None => None,
        Some((account_id, p1)) => {
            let x = CreateAccount { account_id };
            proof {
                assert forall|v: CreateAccountV|
                    (create_account_encodable(v) && pos + enc_create_account(v).len()
                        <= bytes@.len() && bytes@.subrange(
                        pos as int,
                        pos + enc_create_account(v).len(),
                    ) == enc_create_account(v)) implies (x@ == v && p1 == pos
                    + enc_create_account(v).len()) by {
                    assert(v =~= x@);
                }
            }
            Some((x, p1))
        },
    }
}

fn take_create_role(bytes: &[u8], pos: usize) -> (r: Option<(CreateRole, usize)>)
    ensures
        match r {
            Some((x, p)) => create_role_encodable(x@) && p == pos + enc_create_role(x@).len()
                && p <= bytes@.len() && bytes@.subrange(pos as int, p as int) == enc_create_role(
                x@,
            ),
            None => true,
        },
        forall|v: CreateRoleV|
            (create_role_encodable(v) && pos + enc_create_role(v).len() <= bytes@.len()
                && bytes@.subrange(pos as int, pos + enc_create_role(v).len()) == enc_create_role(
                v,
            )) ==> (r matches Some((x2, p2)) && x2@ == v && p2 == pos + enc_create_role(v).len()),
{
    match take_str(bytes, pos) {
        None => None,
        Some((role_name, p1)) => {
            let x = CreateRole { role_name };
            proof {
                assert forall|v: CreateRoleV|
                    (create_role_encodable(v) && pos + enc_create_role(v).len() <= bytes@.len()
                        && bytes@.subrange(pos as int, pos + enc_create_role(v).len())
                        == enc_create_role(v)) implies (x@ == v && p1 == pos + enc_create_role(
                        v,
                    ).len()) by {
                    assert(v =~= x@);
                }
            }
            Some((x, p1))
        },
    }
}

fn take_create_domain(bytes: &[u8], pos: usize) -> (r: Option<(CreateDomain, usize)>)
    ensures
        match r {
            Some((x, p)) => create_domain_encodable(x@) && p == pos + enc_create_domain(
                x@,
            ).len() && p <= bytes@.len() && bytes@.subrange(pos as int, p as int)
                == enc_create_domain(x@),
            None => true,
        },
        forall|v: CreateDomainV|
            (create_domain_encodable(v) && pos + enc_create_domain(v).len() <= bytes@.len()
                && bytes@.subrange(pos as int, pos + enc_create_domain(v).len())
                == enc_create_domain(v)) ==> (r matches Some((x2, p2)) && x2@ == v && p2 == pos
                + enc_create_domain(v).len()),
{
    match take_str(bytes, pos) {
        None => None,
        Some((domain_name, p1)) => {
            let x = CreateDomain { domain_name };
            proof {
                assert forall|v: CreateDomainV|
                    (create_domain_encodable(v) && pos + enc_create_domain(v).len()
                        <= bytes@.len() && bytes@.subrange(
                        pos as int,
                        pos + enc_create_domain(v).len(),
                    ) == enc_create_domain(v)) implies (x@ == v && p1 == pos + enc_create_domain(
                        v,
                    ).len()) by {
                    assert(v =~= x@);
                }
            }
            Some((x, p1))
        },
    }
}

fn take_add_peer(bytes: &[u8], pos: usize) -> (r: Option<(AddPeer, usize)>)
    ensures
        match r {
            Some((x, p)) => add_peer_encodable(x@) && p == pos + enc_add_peer(x@).len() && p
                <= bytes@.len() && bytes@.subrange(pos as int, p as int) == enc_add_peer(x@),
            None => true,
        },
        forall|v: AddPeerV|
            (add_peer_encodable(v) && pos + enc_add_peer(v).len() <= bytes@.len()
                && bytes@.subrange(pos as int, pos + enc_add_peer(v).len()) == enc_add_peer(v))
                ==> (r matches Some((x2, p2)) && x2@ == v && p2 == pos + enc_add_peer(v).len()),
{
    match take_str(bytes, pos) {
        None => None,
        Some((address, p1)) => {
            let x = AddPeer { address };
            proof {
                assert forall|v: AddPeerV|
                    (add_peer_encodable(v) && pos + enc_add_peer(v).len() <= bytes@.len()
                        && bytes@.subrange(pos as int, pos + enc_add_peer(v).len())
                        == enc_add_peer(v)) implies (x@ == v && p1 == pos + enc_add_peer(
                        v,
                    ).len()) by {
                    assert(v =~= x@);
                }
            }
            Some((x, p1))
        },
    }
}

fn take_add_signatory(bytes: &[u8], pos: usize) -> (r: Option<(AddSignatory, usize)>)
    ensures
        match r {
            Some((x, p)) => add_signatory_encodable(x@) && p == pos + enc_add_signatory(
                x@,
            ).len() && p <= bytes@.len() && bytes@.subrange(pos as int, p as int)
                == enc_add_signatory(x@),
            None => true,
        },
        forall|v: AddSignatoryV|
            (add_signatory_encodable(v) && pos + enc_add_signatory(v).len() <= bytes@.len()
                && bytes@.subrange(pos as int, pos + enc_add_signatory(v).len())
                == enc_add_signatory(v)) ==> (r matches Some((x2, p2)) && x2@ == v && p2 == pos
                + enc_add_signatory(v).len()),
{
    proof {
        assert forall|v: AddSignatoryV|
            (add_signatory_encodable(v) && pos + enc_add_signatory(v).len() <= bytes@.len()
                && bytes@.subrange(pos as int, pos + enc_add_signatory(v).len())
                == enc_add_signatory(v)) implies (pos + enc_id(v.account_id).len()
            <= bytes@.len() && bytes@.subrange(pos as int, pos + enc_id(v.account_id).len())
            == enc_id(v.account_id)) by {
            lemma_subrange_concat(bytes@, pos as int, enc_id(v.account_id), enc_bytes(
                v.public_key,
            ));
        }
    }
    match take_id(bytes, pos) {
        None => None,
        Some((account_id, p1)) => {
            proof {
                assert forall|v: AddSignatoryV|
                    (add_signatory_encodable(v) && pos + enc_add_signatory(v).len()
                        <= bytes@.len() && bytes@.subrange(
                        pos as int,
                        pos + enc_add_signatory(v).len(),
                    ) == enc_add_signatory(v)) implies (p1 + enc_bytes(v.public_key).len()
                    <= bytes@.len() && bytes@.subrange(
                        p1 as int,
                        p1 + enc_bytes(v.public_key).len(),
                    ) == enc_bytes(v.public_key) && v.public_key.len() <= u32::MAX) by {
                    lemma_subrange_concat(bytes@, pos as int, enc_id(v.account_id), enc_bytes(
                        v.public_key,
                    ));
                }
            }
            match take_bytes(bytes, p1) {
                None => None,
                Some((public_key, p2)) => {
                    let x = AddSignatory { account_id, public_key };
                    proof {
                        assert(bytes@.subrange(pos as int, p2 as int) =~= enc_add_signatory(x@));
                        assert forall|v: AddSignatoryV|
                            (add_signatory_encodable(v) && pos + enc_add_signatory(v).len()
                                <= bytes@.len() && bytes@.subrange(
                                pos as int,
                                pos + enc_add_signatory(v).len(),
                            ) == enc_add_signatory(v)) implies (x@ == v && p2 == pos
                            + enc_add_signatory(v).len()) by {
                            assert(v =~= x@);
                        }
                    }
                    Some((x, p2))
                },
            }
        },
    }
}

fn take_append_role(bytes: &[u8], pos: usize) -> (r: Option<(AppendRole, usize)>)
    ensures
        match r {
            Some((x, p)) => append_role_encodable(x@) && p == pos + enc_append_role(x@).len()
                && p <= bytes@.len() && bytes@.subrange(pos as int, p as int) == enc_append_role(
                x@,
            ),
            None => true,
        },
        forall|v: AppendRoleV|
            (append_role_encodable(v) && pos + enc_append_role(v).len() <= bytes@.len()
                && bytes@.subrange(pos as int, pos + enc_append_role(v).len()) == enc_append_role(
                v,
            )) ==> (r matches Some((x2, p2)) && x2@ == v && p2 == pos + enc_append_role(v).len()),
{
    proof {
        assert forall|v: AppendRoleV|
            (append_role_encodable(v) && pos + enc_append_role(v).len() <= bytes@.len()
                && bytes@.subrange(pos as int, pos + enc_append_role(v).len()) == enc_append_role(
                v,
            )) implies (pos + enc_id(v.account_id).len() <= bytes@.len() && bytes@.subrange(
            pos as int,
            pos + enc_id(v.account_id).len(),
        ) == enc_id(v.account_id)) by {
            lemma_subrange_concat(bytes@, pos as int, enc_id(v.account_id), enc_str(v.role_name));
        }
    }
    match take_id(bytes, pos) {
        None => None,
        Some((account_id, p1)) => {
            proof {
                assert forall|v: AppendRoleV|
                    (append_role_encodable(v) && pos + enc_append_role(v).len() <= bytes@.len()
                        && bytes@.subrange(pos as int, pos + enc_append_role(v).len())
                        == enc_append_role(v)) implies (p1 + enc_str(v.role_name).len()
                    <= bytes@.len() && bytes@.subrange(p1 as int, p1 + enc_str(v.role_name).len())
                    == enc_str(v.role_name)) by {
                    lemma_subrange_concat(bytes@, pos as int, enc_id(v.account_id), enc_str(
                        v.role_name,
                    ));
                }
            }
            match take_str(bytes, p1) {
                None => None,
                Some((role_name, p2)) => {
                    let x = AppendRole { account_id, role_name };
                    proof {
                        assert(bytes@.subrange(pos as int, p2 as int) =~= enc_append_role(x@));
                        assert forall|v: AppendRoleV|
                            (append_role_encodable(v) && pos + enc_append_role(v).len()
                                <= bytes@.len() && bytes@.subrange(
                                pos as int,
                                pos + enc_append_role(v).len(),
                            ) == enc_append_role(v)) implies (x@ == v && p2 == pos
                            + enc_append_role(v).len()) by {
                            assert(v =~= x@);
                        }
                    }
                    Some((x, p2))
                },
            }
        },
    }
}

fn take_add_asset_quantity(bytes: &[u8], pos: usize) -> (r: Option<(AddAssetQuantity, usize)>)
    ensures
        match r {
            Some((x, p)) => add_asset_quantity_encodable(x@) && p == pos
                + enc_add_asset_quantity(x@).len() && p <= bytes@.len() && bytes@.subrange(
                pos as int,
                p as int,
            ) == enc_add_asset_quantity(x@),
            None => true,
        },
        forall|v: AddAssetQuantityV|
            (add_asset_quantity_encodable(v) && pos + enc_add_asset_quantity(v).len()
                <= bytes@.len() && bytes@.subrange(
                pos as int,
                pos + enc_add_asset_quantity(v).len(),
            ) == enc_add_asset_quantity(v)) ==> (r matches Some((x2, p2)) && x2@ == v && p2 == pos
                + enc_add_asset_quantity(v).len()),
{
    proof {
        assert forall|v: AddAssetQuantityV|
            (add_asset_quantity_encodable(v) && pos + enc_add_asset_quantity(v).len()
                <= bytes@.len() && bytes@.subrange(
                pos as int,
                pos + enc_add_asset_quantity(v).len(),
            ) == enc_add_asset_quantity(v)) implies (pos + enc_id(v.asset_id).len()
            <= bytes@.len() && bytes@.subrange(pos as int, pos + enc_id(v.asset_id).len())
            == enc_id(v.asset_id)) by {
            assert(enc_add_asset_quantity(v) =~= enc_id(v.asset_id) + (enc_id(v.account_id)
                + enc_u128(v.amount)));
            lemma_subrange_concat(bytes@, pos as int, enc_id(v.asset_id), enc_id(v.account_id)
                + enc_u128(v.amount));
        }
    }
    match take_id(bytes, pos) {
        None => None,
        Some((asset_id, p1)) => {
            proof {
                assert forall|v: AddAssetQuantityV|
                    (add_asset_quantity_encodable(v) && pos + enc_add_asset_quantity(v).len()
                        <= bytes@.len() && bytes@.subrange(
                        pos as int,
                        pos + enc_add_asset_quantity(v).len(),
                    ) == enc_add_asset_quantity(v)) implies (p1 + enc_id(v.account_id).len()
                    <= bytes@.len() && bytes@.subrange(p1 as int, p1 + enc_id(v.account_id).len())
                    == enc_id(v.account_id)) by {
                    assert(enc_add_asset_quantity(v) =~= enc_id(v.asset_id) + (enc_id(
                        v.account_id,
                    ) + enc_u128(v.amount)));
                    lemma_subrange_concat(bytes@, pos as int, enc_id(v.asset_id), enc_id(
                        v.account_id,
                    ) + enc_u128(v.amount));
                    lemma_subrange_concat(bytes@, pos + enc_id(v.asset_id).len(), enc_id(
                        v.account_id,
                    ), enc_u128(v.amount));
                }
            }
            match take_id(bytes, p1) {
                None => None,
                Some((account_id, p2)) => {
                    proof {
                        assert forall|v: AddAssetQuantityV|
                            (add_asset_quantity_encodable(v) && pos + enc_add_asset_quantity(
                                v,
                            ).len() <= bytes@.len() && bytes@.subrange(
                                pos as int,
                                pos + enc_add_asset_quantity(v).len(),
                            ) == enc_add_asset_quantity(v)) implies (p2 + 16 <= bytes@.len()
                            && bytes@.subrange(p2 as int, p2 + 16) == enc_u128(v.amount)) by {
                            assert(enc_add_asset_quantity(v) =~= enc_id(v.asset_id) + (enc_id(
                                v.account_id,
                            ) + enc_u128(v.amount)));
                            lemma_subrange_concat(bytes@, pos as int, enc_id(v.asset_id), enc_id(
                                v.account_id,
                            ) + enc_u128(v.amount));
                            lemma_subrange_concat(bytes@, pos + enc_id(v.asset_id).len(), enc_id(
                                v.account_id,
                            ), enc_u128(v.amount));
                            lemma_le_bytes_len(v.amount as nat, 16);
                        }
                    }
                    match take_u128(bytes, p2) {
                        None => None,
                        Some((amount, p3)) => {
                            let x = AddAssetQuantity { asset_id, account_id, amount };
                            proof {
                                assert(bytes@.subrange(pos as int, p3 as int)
                                    =~= enc_add_asset_quantity(x@));
                                assert forall|v: AddAssetQuantityV|
                                    (add_asset_quantity_encodable(v) && pos
                                        + enc_add_asset_quantity(v).len() <= bytes@.len()
                                        && bytes@.subrange(
                                        pos as int,
                                        pos + enc_add_asset_quantity(v).len(),
                                    ) == enc_add_asset_quantity(v)) implies (x@ == v && p3 == pos
                                    + enc_add_asset_quantity(v).len()) by {
                                    assert(v =~= x@);
                                }
                            }
                            Some((x, p3))
                        },
                    }
                },
            }
        },
    }
}

fn take_create_asset(bytes: &[u8], pos: usize) -> (r: Option<(CreateAsset, usize)>)
    ensures
        match r {
            Some((x, p)) => create_asset_encodable(x@) && p == pos + enc_create_asset(x@).len()
                && p <= bytes@.len() && bytes@.subrange(pos as int, p as int) == enc_create_asset(
                x@,
            ),
            None => true,
        },
        forall|v: CreateAssetV|
            (create_asset_encodable(v) && pos + enc_create_asset(v).len() <= bytes@.len()
                && bytes@.subrange(pos as int, pos + enc_create_asset(v).len())
                == enc_create_asset(v)) ==> (r matches Some((x2, p2)) && x2@ == v && p2 == pos
                + enc_create_asset(v).len()),
{
    proof {
        assert forall|v: CreateAssetV|
            (create_asset_encodable(v) && pos + enc_create_asset(v).len() <= bytes@.len()
                && bytes@.subrange(pos as int, pos + enc_create_asset(v).len())
                == enc_create_asset(v)) implies (pos + enc_str(v.asset_name).len()
            <= bytes@.len() && bytes@.subrange(pos as int, pos + enc_str(v.asset_name).len())
            == enc_str(v.asset_name)) by {
            assert(enc_create_asset(v) =~= enc_str(v.asset_name) + (enc_str(v.domain_id) + seq![
                v.decimals,
            ]));
            lemma_subrange_concat(bytes@, pos as int, enc_str(v.asset_name), enc_str(v.domain_id)
                + seq![v.decimals]);
        }
    }
    match take_str(bytes, pos) {
        None => None,
        Some((asset_name, p1)) => {
            proof {
                assert forall|v: CreateAssetV|
                    (create_asset_encodable(v) && pos + enc_create_asset(v).len() <= bytes@.len()
                        && bytes@.subrange(pos as int, pos + enc_create_asset(v).len())
                        == enc_create_asset(v)) implies (p1 + enc_str(v.domain_id).len()
                    <= bytes@.len() && bytes@.subrange(p1 as int, p1 + enc_str(v.domain_id).len())
                    == enc_str(v.domain_id)) by {
                    assert(enc_create_asset(v) =~= enc_str(v.asset_name) + (enc_str(v.domain_id)
                        + seq![v.decimals]));
                    lemma_subrange_concat(bytes@, pos as int, enc_str(v.asset_name), enc_str(
                        v.domain_id,
                    ) + seq![v.decimals]);
                    lemma_subrange_concat(bytes@, pos + enc_str(v.asset_name).len(), enc_str(
                        v.domain_id,
                    ), seq![v.decimals]);
                }
            }
            match take_str(bytes, p1) {
                None => None,
                Some((domain_id, p2)) => {
                    proof {
                        assert forall|v: CreateAssetV|
                            (create_asset_encodable(v) && pos + enc_create_asset(v).len()
                                <= bytes@.len() && bytes@.subrange(
                                pos as int,
                                pos + enc_create_asset(v).len(),
                            ) == enc_create_asset(v)) implies (p2 < bytes@.len() && bytes@[
                            p2 as int
                        ] == v.decimals) by {
                            assert(enc_create_asset(v) =~= enc_str(v.asset_name) + (enc_str(
                                v.domain_id,
                            ) + seq![v.decimals]));
                            lemma_subrange_concat(bytes@, pos as int, enc_str(v.asset_name),
                                enc_str(v.domain_id) + seq![v.decimals]);
                            lemma_subrange_concat(bytes@, pos + enc_str(v.asset_name).len(),
                                enc_str(v.domain_id), seq![v.decimals]);
                            assert(bytes@.subrange(p2 as int, p2 + 1)[0] == v.decimals);
                        }
                    }
                    match take_u8(bytes, p2) {
                        None => None,
                        Some((decimals, p3)) => {
                            let x = CreateAsset { asset_name, domain_id, decimals };
                            proof {
                                assert(bytes@.subrange(pos as int, p3 as int) =~= enc_create_asset(
                                    x@,
                                ));
                                assert forall|v: CreateAssetV|
                                    (create_asset_encodable(v) && pos + enc_create_asset(v).len()
                                        <= bytes@.len() && bytes@.subrange(
                                        pos as int,
                                        pos + enc_create_asset(v).len(),
                                    ) == enc_create_asset(v)) implies (x@ == v && p3 == pos
                                    + enc_create_asset(v).len()) by {
                                    assert(v =~= x@);
                                }
                            }
                            Some((x, p3))
                        },
                    }
                },
            }
        },
    }
}

/// Three identifiers in a row on the wire.
pub open spec fn enc_id3(a: IdV, b: IdV, c: IdV) -> Seq<u8> {
    enc_id(a) + enc_id(b) + enc_id(c)
}

pub open spec fn id3_encodable(a: IdV, b: IdV, c: IdV) -> bool {
    id_encodable(a) && id_encodable(b) && id_encodable(c)
}

fn take_id3(bytes: &[u8], pos: usize) -> (r: Option<((Id, Id, Id), usize)>)
    ensures
        match r {
            Some((x, p)) => id3_encodable(x.0@, x.1@, x.2@) && p == pos + enc_id3(
                x.0@,
                x.1@,
                x.2@,
            ).len() && p <= bytes@.len() && bytes@.subrange(pos as int, p as int) == enc_id3(
                x.0@,
                x.1@,
                x.2@,
            ),
            None => true,
        },
        forall|a: IdV, b: IdV, c: IdV|
            (id3_encodable(a, b, c) && pos + enc_id3(a, b, c).len() <= bytes@.len()
                && bytes@.subrange(pos as int, pos + enc_id3(a, b, c).len()) == enc_id3(a, b, c))
                ==> (r matches Some((x2, p2)) && x2.0@ == a && x2.1@ == b && x2.2@ == c && p2
                == pos + enc_id3(a, b, c).len()),
{
    proof {
        assert forall|a: IdV, b: IdV, c: IdV|
            (id3_encodable(a, b, c) && pos + enc_id3(a, b, c).len() <= bytes@.len()
                && bytes@.subrange(pos as int, pos + enc_id3(a, b, c).len()) == enc_id3(
                a,
                b,
                c,
            )) implies (pos + enc_id(a).len() <= bytes@.len() && bytes@.subrange(
            pos as int,
            pos + enc_id(a).len(),
        ) == enc_id(a)) by {
            assert(enc_id3(a, b, c) =~= enc_id(a) + (enc_id(b) + enc_id(c)));
            lemma_subrange_concat(bytes@, pos as int, enc_id(a), enc_id(b) + enc_id(c));
        }
    }
    match take_id(bytes, pos) {
        None => None,
        Some((first, p1)) => {
            proof {
                assert forall|a: IdV, b: IdV, c: IdV|
                    (id3_encodable(a, b, c) && pos + enc_id3(a, b, c).len() <= bytes@.len()
                        && bytes@.subrange(pos as int, pos + enc_id3(a, b, c).len()) == enc_id3(
                        a,
                        b,
                        c,
                    )) implies (p1 + enc_id(b).len() <= bytes@.len() && bytes@.subrange(
                    p1 as int,
                    p1 + enc_id(b).len(),
                ) == enc_id(b)) by {
                    assert(enc_id3(a, b, c) =~= enc_id(a) + (enc_id(b) + enc_id(c)));
                    lemma_subrange_concat(bytes@, pos as int, enc_id(a), enc_id(b) + enc_id(c));
                    lemma_subrange_concat(bytes@, pos + enc_id(a).len(), enc_id(b), enc_id(c));
                }
            }
            match take_id(bytes, p1) {
                None => None,
                Some((second, p2)) => {
                    proof {
                        assert forall|a: IdV, b: IdV, c: IdV|
                            (id3_encodable(a, b, c) && pos + enc_id3(a, b, c).len()
                                <= bytes@.len() && bytes@.subrange(
                                pos as int,
                                pos + enc_id3(a, b, c).len(),
                            ) == enc_id3(a, b, c)) implies (p2 + enc_id(c).len() <= bytes@.len()
                            && bytes@.subrange(p2 as int, p2 + enc_id(c).len()) == enc_id(c)) by {
                            assert(enc_id3(a, b, c) =~= enc_id(a) + (enc_id(b) + enc_id(c)));
                            lemma_subrange_concat(bytes@, pos as int, enc_id(a), enc_id(b)
                                + enc_id(c));
                            lemma_subrange_concat(bytes@, pos + enc_id(a).len(), enc_id(b), enc_id(
                                c,
                            ));
                        }
                    }
                    match take_id(bytes, p2) {
                        None => None,
                        Some((third, p3)) => {
                            proof {
                                assert(bytes@.subrange(pos as int, p3 as int) =~= enc_id3(
                                    first@,
                                    second@,
                                    third@,
                                ));
                            }
                            Some(((first, second, third), p3))
                        },
                    }
                },
            }
        },
    }
}

/// Whether a byte sequence carries the encoding of transfer `v` at `pos`.
#[verifier::opaque]
pub open spec fn transfer_matches_at(b: Seq<u8>, pos: int, v: TransferAssetV) -> bool {
    &&& transfer_asset_encodable(v)
    &&& pos + enc_transfer_asset(v).len() <= b.len()
    &&& b.subrange(pos, pos + enc_transfer_asset(v).len()) == enc_transfer_asset(v)
}

/// Where the identifiers, the description and the amount of an encoded
/// transfer lie within a byte sequence that carries one at `pos`.
proof fn lemma_transfer_parts(b: Seq<u8>, pos: int, v: TransferAssetV)
    requires
        0 <= pos,
        transfer_matches_at(b, pos, v),
    ensures
        ({
            let e123 = enc_id3(v.source_account_id, v.destination_account_id, v.asset_id);
            let e4 = enc_str(v.description);
            let e5 = enc_u128(v.amount);
            let p3 = pos + e123.len();
            let p4 = p3 + e4.len();
            let p5 = p4 + e5.len();
            &&& p5 == pos + enc_transfer_asset(v).len()
            &&& p5 <= b.len()
            &&& transfer_asset_encodable(v)
            &&& e5.len() == 16
            &&& b.subrange(pos, p3) == e123
            &&& b.subrange(p3, p4) == e4
            &&& b.subrange(p4, p5) == e5
        }),
{
    reveal(transfer_matches_at);
    let e123 = enc_id3(v.source_account_id, v.destination_account_id, v.asset_id);
    let e4 = enc_str(v.description);
    let e5 = enc_u128(v.amount);
    lemma_le_bytes_len(v.amount as nat, 16);
    assert(enc_transfer_asset(v) =~= e123 + (e4 + e5));
    lemma_subrange_concat(b, pos, e123, e4 + e5);
    lemma_subrange_concat(b, pos + e123.len(), e4, e5);
}

#[verifier::rlimit(100)]
#[verifier::spinoff_prover]
fn take_transfer_asset(bytes: &[u8], pos: usize) -> (r: Option<(TransferAsset, usize)>)
    ensures
        match r {
            Some((x, p)) => transfer_matches_at(bytes@, pos as int, x@) && p == pos
                + enc_transfer_asset(x@).len(),
            None => true,
        },
        forall|v: TransferAssetV|
            transfer_matches_at(bytes@, pos as int, v) ==> (r matches Some((x2, p2)) && x2@ == v
                && p2 == pos + enc_transfer_asset(v).len()),
{
    proof {
        assert forall|v: TransferAssetV|
            transfer_matches_at(bytes@, pos as int, v) implies (id3_encodable(
            v.source_account_id,
            v.destination_account_id,
            v.asset_id,
        ) && pos + enc_id3(v.source_account_id, v.destination_account_id, v.asset_id).len()
            <= bytes@.len() && bytes@.subrange(
            pos as int,
            pos + enc_id3(v.source_account_id, v.destination_account_id, v.asset_id).len(),
        ) == enc_id3(v.source_account_id, v.destination_account_id, v.asset_id)) by {
            lemma_transfer_parts(bytes@, pos as int, v);
        }
    }
    match take_id3(bytes, pos) {
        None => None,
        Some((ids, p3)) => {
            proof {
                assert forall|v: TransferAssetV|
                    transfer_matches_at(bytes@, pos as int, v) implies (str_encodable(
                    v.description,
                ) && p3 + enc_str(v.description).len() <= bytes@.len() && bytes@.subrange(
                    p3 as int,
                    p3 + enc_str(v.description).len(),
                ) == enc_str(v.description)) by {
                    lemma_transfer_parts(bytes@, pos as int, v);
                }
            }
            match take_str(bytes, p3) {
                None => None,
                Some((description, p4)) => {
                    proof {
                        assert forall|v: TransferAssetV|
                            transfer_matches_at(bytes@, pos as int, v) implies (p4 + 16
                            <= bytes@.len() && bytes@.subrange(p4 as int, p4 + 16) == enc_u128(
                            v.amount,
                        )) by {
                            lemma_transfer_parts(bytes@, pos as int, v);
                        }
                    }
                    match take_u128(bytes, p4) {
                        None => None,
                        Some((amount, p5)) => {
                            let (source_account_id, destination_account_id, asset_id) = ids;
                            let x = TransferAsset {
                                source_account_id,
                                destination_account_id,
                                asset_id,
                                description,
                                amount,
                            };
                            proof {
                                assert(bytes@.subrange(pos as int, p5 as int)
                                    =~= enc_transfer_asset(x@));
                                assert(transfer_matches_at(bytes@, pos as int, x@)) by {
                                    reveal(transfer_matches_at);
                                }
                                assert forall|v: TransferAssetV|
                                    transfer_matches_at(bytes@, pos as int, v) implies (x@ == v
                                    && p5 == pos + enc_transfer_asset(v).len()) by {
                                    lemma_transfer_parts(bytes@, pos as int, v);
                                    assert(v =~= x@);
                                }
                            }
                            Some((x, p5))
                        },
                    }
                },
            }
        },
    }
}

/// The head and body of one encoded contract.
proof fn lemma_contract_split(b: Seq<u8>, v: ContractV)
    requires
        b == enc_contract(v),
    ensures
        b.len() == 1 + enc_payload(v).len(),
        b[0] == tag_of(v),
        b.subrange(1, b.len() as int) == enc_payload(v),
{
    assert(b.subrange(0, b.len() as int) =~= b);
    lemma_subrange_concat(b, 0, seq![tag_of(v)], enc_payload(v));
}

/// A tag byte followed by a matched payload assembles to one encoded
/// contract.
proof fn lemma_contract_assemble(b: Seq<u8>, c: ContractV)
    requires
        b.len() >= 1,
        b[0] == tag_of(c),
        b.subrange(1, b.len() as int) == enc_payload(c),
    ensures
        b == enc_contract(c),
{
    assert(b =~= seq![tag_of(c)] + enc_payload(c));
}

impl AddAssetQuantity {
    /// Decodes a payload from exactly these bytes: `Ok` comes precisely on
    /// the canonical encodings (trailing bytes are an error), and returns
    /// the one value encoded.
    pub fn from_bytes(bytes: &[u8]) -> (r: Result<AddAssetQuantity, DecodeError>)
        ensures
            match r {
                Ok(x) => add_asset_quantity_encodable(x@) && bytes@ == enc_add_asset_quantity(x@),
                Err(_) => forall|v: AddAssetQuantityV|
                    add_asset_quantity_encodable(v) ==> bytes@ != enc_add_asset_quantity(v),
            },
            forall|v: AddAssetQuantityV|
                (add_asset_quantity_encodable(v) && bytes@ == enc_add_asset_quantity(v)) ==> (
                r matches Ok(x) && x@ == v),
    {
        proof {
            assert forall|v: AddAssetQuantityV|
                add_asset_quantity_encodable(v) && bytes@ == enc_add_asset_quantity(v) implies (0
                + enc_add_asset_quantity(v).len() <= bytes@.len() && bytes@.subrange(
                0,
                enc_add_asset_quantity(v).len() as int,
            ) == enc_add_asset_quantity(v)) by {
                assert(bytes@.subrange(0, enc_add_asset_quantity(v).len() as int) =~= bytes@);
            }
        }
        match take_add_asset_quantity(bytes, 0) {
            Some((x, p)) => {
                if p == bytes.len() {
                    proof {
                        assert(bytes@.subrange(0, p as int) =~= bytes@);
                    }
                    Ok(x)
                } else {
                    Err(DecodeError)
                }
            },
            None => Err(DecodeError),
        }
    }
}

impl CreateAsset {
    /// Decodes a payload from exactly these bytes: `Ok` comes precisely on
    /// the canonical encodings (trailing bytes are an error), and returns
    /// the one value encoded.
    pub fn from_bytes(bytes: &[u8]) -> (r: Result<CreateAsset, DecodeError>)
        ensures
            match r {
                Ok(x) => create_asset_encodable(x@) && bytes@ == enc_create_asset(x@),
                Err(_) => forall|v: CreateAssetV|
                    create_asset_encodable(v) ==> bytes@ != enc_create_asset(v),
            },
            forall|v: CreateAssetV|
                (create_asset_encodable(v) && bytes@ == enc_create_asset(v)) ==> (r matches Ok(x)
                    && x@ == v),
    {
        proof {
            assert forall|v: CreateAssetV|
                create_asset_encodable(v) && bytes@ == enc_create_asset(v) implies (0
                + enc_create_asset(v).len() <= bytes@.len() && bytes@.subrange(
                0,
                enc_create_asset(v).len() as int,
            ) == enc_create_asset(v)) by {
                assert(bytes@.subrange(0, enc_create_asset(v).len() as int) =~= bytes@);
            }
        }
        match take_create_asset(bytes, 0) {
            Some((x, p)) => {
                if p == bytes.len() {
                    proof {
                        assert(bytes@.subrange(0, p as int) =~= bytes@);
                    }
                    Ok(x)
                } else {
                    Err(DecodeError)
                }
            },
            None => Err(DecodeError),
        }
    }
}

impl TransferAsset {
    /// Decodes a payload from exactly these bytes: `Ok` comes precisely on
    /// the canonical encodings (trailing bytes are an error), and returns
    /// the one value encoded.
    pub fn from_bytes(bytes: &[u8]) -> (r: Result<TransferAsset, DecodeError>)
        ensures
            match r {
                Ok(x) => transfer_asset_encodable(x@) && bytes@ == enc_transfer_asset(x@),
                Err(_) => forall|v: TransferAssetV|
                    transfer_asset_encodable(v) ==> bytes@ != enc_transfer_asset(v),
            },
            forall|v: TransferAssetV|
                (transfer_asset_encodable(v) && bytes@ == enc_transfer_asset(v)) ==> (
                r matches Ok(x) && x@ == v),
    {
        proof {
            assert forall|v: TransferAssetV|
                transfer_asset_encodable(v) && bytes@ == enc_transfer_asset(v)
                implies transfer_matches_at(bytes@, 0, v) by {
                reveal(transfer_matches_at);
                assert(bytes@.subrange(0, enc_transfer_asset(v).len() as int) =~= bytes@);
            }
        }
        match take_transfer_asset(bytes, 0) {
            Some((x, p)) => {
                if p == bytes.len() {
                    proof {
                        reveal(transfer_matches_at);
                        assert(bytes@.subrange(0, p as int) =~= bytes@);
                    }
                    Ok(x)
                } else {
                    Err(DecodeError)
                }
            },
            None => Err(DecodeError),
        }
    }
}

fn finish_add_signatory(bytes: &[u8]) -> (r: Result<Contract, DecodeError>)
    requires
        bytes@.len() >= 1,
        bytes@[0] == 0,
    ensures
        match r {
            Ok(c) => contract_encodable(c@) && bytes@ == enc_contract(c@),
            Err(_) => forall|v: ContractV| contract_encodable(v) ==> bytes@ != enc_contract(v),
        },
        forall|v: ContractV|
            (contract_encodable(v) && bytes@ == enc_contract(v)) ==> (r matches Ok(c) && c@ == v),
{
    proof {
        assert forall|v: ContractV|
            contract_encodable(v) && bytes@ == enc_contract(v) implies (v is AddSignatory && 1
            + enc_payload(v).len() <= bytes@.len() && bytes@.subrange(
            1,
            1 + enc_payload(v).len() as int,
        ) == enc_payload(v)) by {
            lemma_contract_split(bytes@, v);
        }
    }
    match take_add_signatory(bytes, 1) {
        Some((x, p)) => {
            if p == bytes.len() {
                let c = Contract::AddSignatory(x);
                proof {
                    lemma_contract_assemble(bytes@, c@);
                }
                Ok(c)
            } else {
                Err(DecodeError)
            }
        },
        None => Err(DecodeError),
    }
}

fn finish_append_role(bytes: &[u8]) -> (r: Result<Contract, DecodeError>)
    requires
        bytes@.len() >= 1,
        bytes@[0] == 1,
    ensures
        match r {
            Ok(c) => contract_encodable(c@) && bytes@ == enc_contract(c@),
            Err(_) => forall|v: ContractV| contract_encodable(v) ==> bytes@ != enc_contract(v),
        },
        forall|v: ContractV|
            (contract_encodable(v) && bytes@ == enc_contract(v)) ==> (r matches Ok(c) && c@ == v),
{
    proof {
        assert forall|v: ContractV|
            contract_encodable(v) && bytes@ == enc_contract(v) implies (v is AppendRole && 1
            + enc_payload(v).len() <= bytes@.len() && bytes@.subrange(
            1,
            1 + enc_payload(v).len() as int,
        ) == enc_payload(v)) by {
            lemma_contract_split(bytes@, v);
        }
    }
    match take_append_role(bytes, 1) {
        Some((x, p)) => {
            if p == bytes.len() {
                let c = Contract::AppendRole(x);
                proof {
                    lemma_contract_assemble(bytes@, c@);
                }
                Ok(c)
            } else {
                Err(DecodeError)
            }
        },
        None => Err(DecodeError),
    }
}

fn finish_create_account(bytes: &[u8]) -> (r: Result<Contract, DecodeError>)
    requires
        bytes@.len() >= 1,
        bytes@[0] == 2,
    ensures
        match r {
            Ok(c) => contract_encodable(c@) && bytes@ == enc_contract(c@),
            Err(_) => forall|v: ContractV| contract_encodable(v) ==> bytes@ != enc_contract(v),
        },
        forall|v: ContractV|
            (contract_encodable(v) && bytes@ == enc_contract(v)) ==> (r matches Ok(c) && c@ == v),
{
    proof {
        assert forall|v: ContractV|
            contract_encodable(v) && bytes@ == enc_contract(v) implies (v is CreateAccount && 1
            + enc_payload(v).len() <= bytes@.len() && bytes@.subrange(
            1,
            1 + enc_payload(v).len() as int,
        ) == enc_payload(v)) by {
            lemma_contract_split(bytes@, v);
        }
    }
    match take_create_account(bytes, 1) {
        Some((x, p)) => {
            if p == bytes.len() {
                let c = Contract::CreateAccount(x);
                proof {
                    lemma_contract_assemble(bytes@, c@);
                }
                Ok(c)
            } else {
                Err(DecodeError)
            }
        },
        None => Err(DecodeError),
    }
}

fn finish_create_role(bytes: &[u8]) -> (r: Result<Contract, DecodeError>)
    requires
        bytes@.len() >= 1,
        bytes@[0] == 3,
    ensures
        match r {
            Ok(c) => contract_encodable(c@) && bytes@ == enc_contract(c@),
            Err(_) => forall|v: ContractV| contract_encodable(v) ==> bytes@ != enc_contract(v),
        },
        forall|v: ContractV|
            (contract_encodable(v) && bytes@ == enc_contract(v)) ==> (r matches Ok(c) && c@ == v),
{
    proof {
        assert forall|v: ContractV|
            contract_encodable(v) && bytes@ == enc_contract(v) implies (v is CreateRole && 1
            + enc_payload(v).len() <= bytes@.len() && bytes@.subrange(
            1,
            1 + enc_payload(v).len() as int,
        ) == enc_payload(v)) by {
            lemma_contract_split(bytes@, v);
        }
    }
    match take_create_role(bytes, 1) {
        Some((x, p)) => {
            if p == bytes.len() {
                let c = Contract::CreateRole(x);
                proof {
                    lemma_contract_assemble(bytes@, c@);
                }
                Ok(c)
            } else {
                Err(DecodeError)
            }
        },
        None => Err(DecodeError),
    }
}

fn finish_add_asset_quantity(bytes: &[u8]) -> (r: Result<Contract, DecodeError>)
    requires
        bytes@.len() >= 1,
        bytes@[0] == 4,
    ensures
        match r {
            Ok(c) => contract_encodable(c@) && bytes@ == enc_contract(c@),
            Err(_) => forall|v: ContractV| contract_encodable(v) ==> bytes@ != enc_contract(v),
        },
        forall|v: ContractV|
            (contract_encodable(v) && bytes@ == enc_contract(v)) ==> (r matches Ok(c) && c@ == v),
{
    proof {
        assert forall|v: ContractV|
            contract_encodable(v) && bytes@ == enc_contract(v) implies (v is AddAssetQuantity && 1
            + enc_payload(v).len() <= bytes@.len() && bytes@.subrange(
            1,
            1 + enc_payload(v).len() as int,
        ) == enc_payload(v)) by {
            lemma_contract_split(bytes@, v);
        }
    }
    match take_add_asset_quantity(bytes, 1) {
        Some((x, p)) => {
            if p == bytes.len() {
                let c = Contract::AddAssetQuantity(x);
                proof {
                    lemma_contract_assemble(bytes@, c@);
                }
                Ok(c)
            } else {
                Err(DecodeError)
            }
        },
        None => Err(DecodeError),
    }
}

#[verifier::rlimit(100)]
#[verifier::spinoff_prover]
fn finish_transfer_asset(bytes: &[u8]) -> (r: Result<Contract, DecodeError>)
    requires
        bytes@.len() >= 1,
        bytes@[0] == 5,
    ensures
        match r {
            Ok(c) => contract_encodable(c@) && bytes@ == enc_contract(c@),
            Err(_) => forall|v: ContractV| contract_encodable(v) ==> bytes@ != enc_contract(v),
        },
        forall|v: ContractV|
            (contract_encodable(v) && bytes@ == enc_contract(v)) ==> (r matches Ok(c) && c@ == v),
{
    proof {
        assert forall|v: ContractV|
            contract_encodable(v) && bytes@ == enc_contract(v) implies (v is TransferAsset
            && transfer_matches_at(bytes@, 1, v->TransferAsset_0) && bytes@.len() == 1
            + enc_transfer_asset(v->TransferAsset_0).len()) by {
            lemma_contract_split(bytes@, v);
            if v is TransferAsset {
                assert(transfer_matches_at(bytes@, 1, v->TransferAsset_0)) by {
                    reveal(transfer_matches_at);
                }
            }
        }
    }
    match take_transfer_asset(bytes, 1) {
        Some((x, p)) => {
            if p == bytes.len() {
                let c = Contract::TransferAsset(x);
                proof {
                    assert(transfer_asset_encodable(x@) && bytes@.subrange(
                        1,
                        bytes@.len() as int,
                    ) == enc_payload(c@)) by {
                        reveal(transfer_matches_at);
                    }
                    lemma_contract_assemble(bytes@, c@);
                }
                Ok(c)
            } else {
                Err(DecodeError)
            }
        },
        None => Err(DecodeError),
    }
}

fn finish_create_asset(bytes: &[u8]) -> (r: Result<Contract, DecodeError>)
    requires
        bytes@.len() >= 1,
        bytes@[0] == 6,
    ensures
        match r {
            Ok(c) => contract_encodable(c@) && bytes@ == enc_contract(c@),
            Err(_) => forall|v: ContractV| contract_encodable(v) ==> bytes@ != enc_contract(v),
        },
        forall|v: ContractV|
            (contract_encodable(v) && bytes@ == enc_contract(v)) ==> (r matches Ok(c) && c@ == v),
{
    proof {
        assert forall|v: ContractV|
            contract_encodable(v) && bytes@ == enc_contract(v) implies (v is CreateAsset && 1
            + enc_payload(v).len() <= bytes@.len() && bytes@.subrange(
            1,
            1 + enc_payload(v).len() as int,
        ) == enc_payload(v)) by {
            lemma_contract_split(bytes@, v);
        }
    }
    match take_create_asset(bytes, 1) {
        Some((x, p)) => {
            if p == bytes.len() {
                let c = Contract::CreateAsset(x);
                proof {
                    lemma_contract_assemble(bytes@, c@);
                }
                Ok(c)
            } else {
                Err(DecodeError)
            }
        },
        None => Err(DecodeError),
    }
}

fn finish_create_domain(bytes: &[u8]) -> (r: Result<Contract, DecodeError>)
    requires
        bytes@.len() >= 1,
        bytes@[0] == 7,
    ensures
        match r {
            Ok(c) => contract_encodable(c@) && bytes@ == enc_contract(c@),
            Err(_) => forall|v: ContractV| contract_encodable(v) ==> bytes@ != enc_contract(v),
        },
        forall|v: ContractV|
            (contract_encodable(v) && bytes@ == enc_contract(v)) ==> (r matches Ok(c) && c@ == v),
{
    proof {
        assert forall|v: ContractV|
            contract_encodable(v) && bytes@ == enc_contract(v) implies (v is CreateDomain && 1
            + enc_payload(v).len() <= bytes@.len() && bytes@.subrange(
            1,
            1 + enc_payload(v).len() as int,
        ) == enc_payload(v)) by {
            lemma_contract_split(bytes@, v);
        }
    }
    match take_create_domain(bytes, 1) {
        Some((x, p)) => {
            if p == bytes.len() {
                let c = Contract::CreateDomain(x);
                proof {
                    lemma_contract_assemble(bytes@, c@);
                }
                Ok(c)
            } else {
                Err(DecodeError)
            }
        },
        None => Err(DecodeError),
    }
}

fn finish_add_peer(bytes: &[u8]) -> (r: Result<Contract, DecodeError>)
    requires
        bytes@.len() >= 1,
        bytes@[0] == 8,
    ensures
        match r {
            Ok(c) => contract_encodable(c@) && bytes@ == enc_contract(c@),
            Err(_) => forall|v: ContractV| contract_encodable(v) ==> bytes@ != enc_contract(v),
        },
        forall|v: ContractV|
            (contract_encodable(v) && bytes@ == enc_contract(v)) ==> (r matches Ok(c) && c@ == v),
{
    proof {
        assert forall|v: ContractV|
            contract_encodable(v) && bytes@ == enc_contract(v) implies (v is AddPeer && 1
            + enc_payload(v).len() <= bytes@.len() && bytes@.subrange(
            1,
            1 + enc_payload(v).len() as int,
        ) == enc_payload(v)) by {
            lemma_contract_split(bytes@, v);
        }
    }
    match take_add_peer(bytes, 1) {
        Some((x, p)) => {
            if p == bytes.len() {
                let c = Contract::AddPeer(x);
                proof {
                    lemma_contract_assemble(bytes@, c@);
                }
                Ok(c)
            } else {
                Err(DecodeError)
            }
        },
        None => Err(DecodeError),
    }
}

impl Contract {
    /// Decodes a contract from exactly these bytes: the variant tag selects
    /// the payload, trailing bytes are an error, and `Ok` comes precisely on
    /// the canonical encodings, returning the one value encoded.
    pub fn from_bytes(bytes: &[u8]) -> (r: Result<Contract, DecodeError>)
        ensures
            match r {
                Ok(c) => contract_encodable(c@) && bytes@ == enc_contract(c@),
                Err(_) => forall|v: ContractV|
                    contract_encodable(v) ==> bytes@ != enc_contract(v),
            },
            forall|v: ContractV|
                (contract_encodable(v) && bytes@ == enc_contract(v)) ==> (r matches Ok(c) && c@
                    == v),
    {
        let (tag, _) = match take_u8(bytes, 0) {
            Some(x) => x,
            None => {
                proof {
                    assert forall|v: ContractV|
                        contract_encodable(v) implies bytes@ != enc_contract(v) by {
                        if bytes@ == enc_contract(v) {
                            lemma_contract_split(bytes@, v);
                        }
                    }
                }
                return Err(DecodeError);
            },
        };
        if tag == 0 {
            finish_add_signatory(bytes)
        } else if tag == 1 {
            finish_append_role(bytes)
        } else if tag == 2 {
            finish_create_account(bytes)
        } else if tag == 3 {
            finish_create_role(bytes)
        } else if tag == 4 {
            finish_add_asset_quantity(bytes)
        } else if tag == 5 {
            finish_transfer_asset(bytes)
        } else if tag == 6 {
            finish_create_asset(bytes)
        } else if tag == 7 {
            finish_create_domain(bytes)
        } else if tag == 8 {
            finish_add_peer(bytes)
        } else {
            proof {
                assert forall|v: ContractV|
                    contract_encodable(v) implies bytes@ != enc_contract(v) by {
                    if bytes@ == enc_contract(v) {
                        lemma_contract_split(bytes@, v);
                    }
                }
            }
            Err(DecodeError)
        }
    }
}

impl AddAssetQuantity {
    /// The canonical encoding of this payload.
    pub fn to_bytes(&self) -> (r: Vec<u8>)
        requires
            add_asset_quantity_encodable(self@),
        ensures
            r@ == enc_add_asset_quantity(self@),
    {
        let mut out: Vec<u8> = Vec::new();
        put_add_asset_quantity(&mut out, self);
        proof {
            assert(out@ =~= enc_add_asset_quantity(self@));
        }
        out
    }
}

impl CreateAsset {
    /// The canonical encoding of this payload.
    pub fn to_bytes(&self) -> (r: Vec<u8>)
        requires
            create_asset_encodable(self@),
        ensures
            r@ == enc_create_asset(self@),
    {
        let mut out: Vec<u8> = Vec::new();
        put_create_asset(&mut out, self);
        proof {
            assert(out@ =~= enc_create_asset(self@));
        }
        out
    }
}

impl TransferAsset {
    /// The canonical encoding of this payload.
    pub fn to_bytes(&self) -> (r: Vec<u8>)
        requires
            transfer_asset_encodable(self@),
        ensures
            r@ == enc_transfer_asset(self@),
    {
        let mut out: Vec<u8> = Vec::new();
        put_transfer_asset(&mut out, self);
        proof {
            assert(out@ =~= enc_transfer_asset(self@));
        }
        out
    }
}

impl AddSignatory {
    /// The canonical encoding of this payload.
    pub fn to_bytes(&self) -> (r: Vec<u8>)
        requires
            add_signatory_encodable(self@),
        ensures
            r@ == enc_add_signatory(self@),
    {
        let mut out: Vec<u8> = Vec::new();
        put_add_signatory(&mut out, self);
        proof {
            assert(out@ =~= enc_add_signatory(self@));
        }
        out
    }

    /// Decodes a payload from exactly these bytes: `Ok` comes precisely on
    /// the canonical encodings (trailing bytes are an error), and returns
    /// the one value encoded.
    pub fn from_bytes(bytes: &[u8]) -> (r: Result<AddSignatory, DecodeError>)
        ensures
            match r {
                Ok(x) => add_signatory_encodable(x@) && bytes@ == enc_add_signatory(x@),
                Err(_) => forall|v: AddSignatoryV|
                    add_signatory_encodable(v) ==> bytes@ != enc_add_signatory(v),
            },
            forall|v: AddSignatoryV|
                (add_signatory_encodable(v) && bytes@ == enc_add_signatory(v)) ==> (r matches Ok(x) && x@ == v),
    {
        proof {
            assert forall|v: AddSignatoryV|
                add_signatory_encodable(v) && bytes@ == enc_add_signatory(v) implies (0 + enc_add_signatory(v).len()
                <= bytes@.len() && bytes@.subrange(0, enc_add_signatory(v).len() as int) == enc_add_signatory(
                v,
            )) by {
                assert(bytes@.subrange(0, enc_add_signatory(v).len() as int) =~= bytes@);
            }
        }
        match take_add_signatory(bytes, 0) {
            Some((x, p)) => {
                if p == bytes.len() {
                    proof {
                        assert(bytes@.subrange(0, p as int) =~= bytes@);
                    }
                    Ok(x)
                } else {
                    Err(DecodeError)
                }
            },
            None => Err(DecodeError),
        }
    }
}

impl AppendRole {
    /// The canonical encoding of this payload.
    pub fn to_bytes(&self) -> (r: Vec<u8>)
        requires
            append_role_encodable(self@),
        ensures
            r@ == enc_append_role(self@),
    {
        let mut out: Vec<u8> = Vec::new();
        put_append_role(&mut out, self);
        proof {
            assert(out@ =~= enc_append_role(self@));
        }
        out
    }

    /// Decodes a payload from exactly these bytes: `Ok` comes precisely on
    /// the canonical encodings (trailing bytes are an error), and returns
    /// the one value encoded.
    pub fn from_bytes(bytes: &[u8]) -> (r: Result<AppendRole, DecodeError>)
        ensures
            match r {
                Ok(x) => append_role_encodable(x@) && bytes@ == enc_append_role(x@),
                Err(_) => forall|v: AppendRoleV|
                    append_role_encodable(v) ==> bytes@ != enc_append_role(v),
            },
            forall|v: AppendRoleV|
                (append_role_encodable(v) && bytes@ == enc_append_role(v)) ==> (r matches Ok(x) && x@ == v),
    {
        proof {
            assert forall|v: AppendRoleV|
                append_role_encodable(v) && bytes@ == enc_append_role(v) implies (0 + enc_append_role(v).len()
                <= bytes@.len() && bytes@.subrange(0, enc_append_role(v).len() as int) == enc_append_role(
                v,
            )) by {
                assert(bytes@.subrange(0, enc_append_role(v).len() as int) =~= bytes@);
            }
        }
        match take_append_role(bytes, 0) {
            Some((x, p)) => {
                if p == bytes.len() {
                    proof {
                        assert(bytes@.subrange(0, p as int) =~= bytes@);
                    }
                    Ok(x)
                } else {
                    Err(DecodeError)
                }
            },
            None => Err(DecodeError),
        }
    }
}

impl CreateAccount {
    /// The canonical encoding of this payload.
    pub fn to_bytes(&self) -> (r: Vec<u8>)
        requires
            create_account_encodable(self@),
        ensures
            r@ == enc_create_account(self@),
    {
        let mut out: Vec<u8> = Vec::new();
        put_create_account(&mut out, self);
        proof {
            assert(out@ =~= enc_create_account(self@));
        }
        out
    }

    /// Decodes a payload from exactly these bytes: `Ok` comes precisely on
    /// the canonical encodings (trailing bytes are an error), and returns
    /// the one value encoded.
    pub fn from_bytes(bytes: &[u8]) -> (r: Result<CreateAccount, DecodeError>)
        ensures
            match r {
                Ok(x) => create_account_encodable(x@) && bytes@ == enc_create_account(x@),
                Err(_) => forall|v: CreateAccountV|
                    create_account_encodable(v) ==> bytes@ != enc_create_account(v),
            },
            forall|v: CreateAccountV|
                (create_account_encodable(v) && bytes@ == enc_create_account(v)) ==> (r matches Ok(x) && x@ == v),
    {
        proof {
            assert forall|v: CreateAccountV|
                create_account_encodable(v) && bytes@ == enc_create_account(v) implies (0 + enc_create_account(v).len()
                <= bytes@.len() && bytes@.subrange(0, enc_create_account(v).len() as int) == enc_create_account(
                v,
            )) by {
                assert(bytes@.subrange(0, enc_create_account(v).len() as int) =~= bytes@);
            }
        }
        match take_create_account(bytes, 0) {
            Some((x, p)) => {
                if p == bytes.len() {
                    proof {
                        assert(bytes@.subrange(0, p as int) =~= bytes@);
                    }
                    Ok(x)
                } else {
                    Err(DecodeError)
                }
            },
            None => Err(DecodeError),
        }
    }
}

impl CreateRole {
    /// The canonical encoding of this payload.
    pub fn to_bytes(&self) -> (r: Vec<u8>)
        requires
            create_role_encodable(self@),
        ensures
            r@ == enc_create_role(self@),
    {
        let mut out: Vec<u8> = Vec::new();
        put_create_role(&mut out, self);
        proof {
            assert(out@ =~= enc_create_role(self@));
        }
        out
    }

    /// Decodes a payload from exactly these bytes: `Ok` comes precisely on
    /// the canonical encodings (trailing bytes are an error), and returns
    /// the one value encoded.
    pub fn from_bytes(bytes: &[u8]) -> (r: Result<CreateRole, DecodeError>)
        ensures
            match r {
                Ok(x) => create_role_encodable(x@) && bytes@ == enc_create_role(x@),
                Err(_) => forall|v: CreateRoleV|
                    create_role_encodable(v) ==> bytes@ != enc_create_role(v),
            },
            forall|v: CreateRoleV|
                (create_role_encodable(v) && bytes@ == enc_create_role(v)) ==> (r matches Ok(x) && x@ == v),
    {
        proof {
            assert forall|v: CreateRoleV|
                create_role_encodable(v) && bytes@ == enc_create_role(v) implies (0 + enc_create_role(v).len()
                <= bytes@.len() && bytes@.subrange(0, enc_create_role(v).len() as int) == enc_create_role(
                v,
            )) by {
                assert(bytes@.subrange(0, enc_create_role(v).len() as int) =~= bytes@);
            }
        }
        match take_create_role(bytes, 0) {
            Some((x, p)) => {
                if p == bytes.len() {
                    proof {
                        assert(bytes@.subrange(0, p as int) =~= bytes@);
                    }
                    Ok(x)
                } else {
                    Err(DecodeError)
                }
            },
            None => Err(DecodeError),
        }
    }
}

impl CreateDomain {
    /// The canonical encoding of this payload.
    pub fn to_bytes(&self) -> (r: Vec<u8>)
        requires
            create_domain_encodable(self@),
        ensures
            r@ == enc_create_domain(self@),
    {
        let mut out: Vec<u8> = Vec::new();
        put_create_domain(&mut out, self);
        proof {
            assert(out@ =~= enc_create_domain(self@));
        }
        out
    }

    /// Decodes a payload from exactly these bytes: `Ok` comes precisely on
    /// the canonical encodings (trailing bytes are an error), and returns
    /// the one value encoded.
    pub fn from_bytes(bytes: &[u8]) -> (r: Result<CreateDomain, DecodeError>)
        ensures
            match r {
                Ok(x) => create_domain_encodable(x@) && bytes@ == enc_create_domain(x@),
                Err(_) => forall|v: CreateDomainV|
                    create_domain_encodable(v) ==> bytes@ != enc_create_domain(v),
            },
            forall|v: CreateDomainV|
                (create_domain_encodable(v) && bytes@ == enc_create_domain(v)) ==> (r matches Ok(x) && x@ == v),
    {
        proof {
            assert forall|v: CreateDomainV|
                create_domain_encodable(v) && bytes@ == enc_create_domain(v) implies (0 + enc_create_domain(v).len()
                <= bytes@.len() && bytes@.subrange(0, enc_create_domain(v).len() as int) == enc_create_domain(
                v,
            )) by {
                assert(bytes@.subrange(0, enc_create_domain(v).len() as int) =~= bytes@);
            }
        }
        match take_create_domain(bytes, 0) {
            Some((x, p)) => {
                if p == bytes.len() {
                    proof {
                        assert(bytes@.subrange(0, p as int) =~= bytes@);
                    }
                    Ok(x)
                } else {
                    Err(DecodeError)
                }
            },
            None => Err(DecodeError),
        }
    }
}

impl AddPeer {
    /// The canonical encoding of this payload.
    pub fn to_bytes(&self) -> (r: Vec<u8>)
        requires
            add_peer_encodable(self@),
        ensures
            r@ == enc_add_peer(self@),
    {
        let mut out: Vec<u8> = Vec::new();
        put_add_peer(&mut out, self);
        proof {
            assert(out@ =~= enc_add_peer(self@));
        }
        out
    }

    /// Decodes a payload from exactly these bytes: `Ok` comes precisely on
    /// the canonical encodings (trailing bytes are an error), and returns
    /// the one value encoded.
    pub fn from_bytes(bytes: &[u8]) -> (r: Result<AddPeer, DecodeError>)
        ensures
            match r {
                Ok(x) => add_peer_encodable(x@) && bytes@ == enc_add_peer(x@),
                Err(_) => forall|v: AddPeerV|
                    add_peer_encodable(v) ==> bytes@ != enc_add_peer(v),
            },
            forall|v: AddPeerV|
                (add_peer_encodable(v) && bytes@ == enc_add_peer(v)) ==> (r matches Ok(x) && x@ == v),
    {
        proof {
            assert forall|v: AddPeerV|
                add_peer_encodable(v) && bytes@ == enc_add_peer(v) implies (0 + enc_add_peer(v).len()
                <= bytes@.len() && bytes@.subrange(0, enc_add_peer(v).len() as int) == enc_add_peer(
                v,
            )) by {
                assert(bytes@.subrange(0, enc_add_peer(v).len() as int) =~= bytes@);
            }
        }
        match take_add_peer(bytes, 0) {
            Some((x, p)) => {
                if p == bytes.len() {
                    proof {
                        assert(bytes@.subrange(0, p as int) =~= bytes@);
                    }
                    Ok(x)
                } else {
                    Err(DecodeError)
                }
            },
            None => Err(DecodeError),
        }
    }
}

impl Contract {
    /// The canonical encoding of the contract: a tag byte in declaration
    /// order, then the variant's payload.
    pub fn to_bytes(&self) -> (r: Vec<u8>)
        requires
            contract_encodable(self@),
        ensures
            r@ == enc_contract(self@),
    {
        let mut out: Vec<u8> = Vec::new();
        match self {
            Contract::AddSignatory(v) => {
                out.push(0u8);
                put_add_signatory(&mut out, v);
            },
            Contract::AppendRole(v) => {
                out.push(1u8);
                put_append_role(&mut out, v);
            },
            Contract::CreateAccount(v) => {
                out.push(2u8);
                put_create_account(&mut out, v);
            },
            Contract::CreateRole(v) => {
                out.push(3u8);
                put_create_role(&mut out, v);
            },
            Contract::AddAssetQuantity(v) => {
                out.push(4u8);
                put_add_asset_quantity(&mut out, v);
            },
            Contract::TransferAsset(v) => {
                out.push(5u8);
                put_transfer_asset(&mut out, v);
            },
            Contract::CreateAsset(v) => {
                out.push(6u8);
                put_create_asset(&mut out, v);
            },
            Contract::CreateDomain(v) => {
                out.push(7u8);
                put_create_domain(&mut out, v);
            },
            Contract::AddPeer(v) => {
                out.push(8u8);
                put_add_peer(&mut out, v);
            },
        }
        proof {
            assert(out@ =~= enc_contract(self@));
        }
        out
    }
}

} // verus!
