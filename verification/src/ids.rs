//! Identifiers: the 128 bits of a UUID as an integer.

use vstd::prelude::*;

verus! {

/// The `n` lowest base-256 digits of `v`, most significant first.
pub open spec fn be_bytes(v: nat, n: nat) -> Seq<u8>
    decreases n,
{
    if n == 0 {
        Seq::empty()
    } else {
        be_bytes(v / 256, (n - 1) as nat).push((v % 256) as u8)
    }
}

/// The number that base-256 digits spell, most significant first.
pub open spec fn be_value(digits: Seq<u8>) -> nat
    decreases digits.len(),
{
    if digits.len() == 0 {
        0
    } else {
        be_value(digits.drop_last()) * 256 + digits.last() as nat
    }
}

/// `256^n`.
pub open spec fn pow256(n: nat) -> nat
    decreases n,
{
    if n == 0 {
        1
    } else {
        256 * pow256((n - 1) as nat)
    }
}

pub proof fn lemma_be_bytes_len(v: nat, n: nat)
    ensures
        be_bytes(v, n).len() == n,
    decreases n,
{
    if n > 0 {
        lemma_be_bytes_len(v / 256, (n - 1) as nat);
    }
}

/// Writing a number as digits and reading the digits gives the number back.
pub proof fn lemma_be_round_trip(v: nat, n: nat)
    requires
        v < pow256(n),
    ensures
        be_value(be_bytes(v, n)) == v,
    decreases n,
{
    if n > 0 {
        assert(v / 256 < pow256((n - 1) as nat)) by (nonlinear_arith)
            requires
                v < 256 * pow256((n - 1) as nat),
        ;
        lemma_be_round_trip(v / 256, (n - 1) as nat);
        let d = be_bytes(v, n);
        assert(d.drop_last() =~= be_bytes(v / 256, (n - 1) as nat));
    }
}

pub proof fn lemma_pow256_16()
    ensures
        pow256(16) == 0x1_0000_0000_0000_0000_0000_0000_0000_0000,
{
    reveal_with_fuel(pow256, 17);
}

/// The lower-case hexadecimal digit for `d < 16`.
pub open spec fn hex_digit(d: int) -> char {
    if d < 10 {
        ('0' as int + d) as char
    } else {
        ('a' as int + d - 10) as char
    }
}

/// Two hexadecimal digits for each byte.
pub open spec fn hex_of(bytes: Seq<u8>) -> Seq<char> {
    Seq::new(
        2 * bytes.len(),
        |i: int|
            if i % 2 == 0 {
                hex_digit(bytes[i / 2] as int / 16)
            } else {
                hex_digit(bytes[i / 2] as int % 16)
            },
    )
}

/// The version digit of a random identifier is 4 and its variant bits are `10`.
pub open spec fn is_random_id(id: u128) -> bool {
    &&& id as nat / pow256(9) / 16 % 16 == 4
    &&& id as nat / pow256(7) / 64 % 4 == 2
}

/// A fresh random identifier.
///
/// `uuid::Uuid::new_v4` fills 122 bits from the operating system's random
/// source; of every outcome the contract claims the version digit 4 and the
/// variant bits `10`. Which of them comes is left to chance.
#[verifier::external_body]
pub(crate) fn random_id() -> (r: u128)
    ensures
        is_random_id(r),
{
    uuid::Uuid::new_v4().as_u128()
}

/// The sixteen bytes of an identifier.
///
/// `uuid::Uuid::as_bytes` hands out the bytes most significant first, which is
/// the order in which `Uuid::from_u128` stored them.
#[verifier::external_body]
pub(crate) fn id_bytes(id: u128) -> (r: [u8; 16])
    ensures
        r@ == be_bytes(id as nat, 16),
{
    *uuid::Uuid::from_u128(id).as_bytes()
}

/// An identifier in thirty-two lower-case hexadecimal digits.
///
/// `uuid::Uuid::simple` formats the bytes in order, two digits each, with no
/// hyphens.
#[verifier::external_body]
pub(crate) fn id_hex(id: u128) -> (r: String)
    ensures
        r@ == hex_of(be_bytes(id as nat, 16)),
{
    uuid::Uuid::from_u128(id).simple().to_string()
}

} // verus!
