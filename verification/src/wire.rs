//! Values as bytes: numbers, texts, identifiers, and what is made of them.
//!
//! How a number, a text or an identifier becomes bytes is `bincode`'s business;
//! how values are strung together is laid down here.

use vstd::prelude::*;
use vstd::slice::slice_subrange;
use vstd::utf8::{decode_utf8, encode_utf8, valid_utf8};

use crate::ids::{
    be_bytes, be_value, lemma_be_bytes_len, lemma_be_round_trip, lemma_pow256_16, pow256,
};
use crate::text::decimal;
use crate::types::Scalar;

verus! {

/// The `n` lowest base-256 digits of `v`, least significant first.
pub open spec fn le_bytes(v: nat, n: nat) -> Seq<u8>
    decreases n,
{
    if n == 0 {
        Seq::empty()
    } else {
        seq![(v % 256) as u8] + le_bytes(v / 256, (n - 1) as nat)
    }
}

/// The number that base-256 digits spell, least significant first.
pub open spec fn le_value(digits: Seq<u8>) -> nat
    decreases digits.len(),
{
    if digits.len() == 0 {
        0
    } else {
        digits[0] as nat + 256 * le_value(digits.skip(1))
    }
}

proof fn lemma_le_round_trip(v: nat, n: nat)
    requires
        v < pow256(n),
    ensures
        le_bytes(v, n).len() == n,
        le_value(le_bytes(v, n)) == v,
    decreases n,
{
    if n > 0 {
        assert(v / 256 < pow256((n - 1) as nat)) by (nonlinear_arith)
            requires
                v < 256 * pow256((n - 1) as nat),
        ;
        lemma_le_round_trip(v / 256, (n - 1) as nat);
        assert(le_bytes(v, n).skip(1) =~= le_bytes(v / 256, (n - 1) as nat));
    }
}

/// A whole number on the wire: small ones in a byte, larger ones in two, four
/// or eight bytes behind a byte that says so.
pub open spec fn number_bytes(v: nat) -> Seq<u8> {
    if v < 251 {
        seq![v as u8]
    } else if v < 0x1_0000 {
        seq![251u8] + le_bytes(v, 2)
    } else if v < 0x1_0000_0000 {
        seq![252u8] + le_bytes(v, 4)
    } else {
        seq![253u8] + le_bytes(v, 8)
    }
}

/// Reads a number of at most `width` bytes from the front: the number, and how
/// many bytes it took.
pub open spec fn number_read(bytes: Seq<u8>, width: nat) -> Option<(nat, nat)> {
    if bytes.len() == 0 {
        None
    } else if bytes[0] < 251 {
        Some((bytes[0] as nat, 1))
    } else if bytes[0] == 251 && width >= 2 && bytes.len() >= 3 {
        Some((le_value(bytes.subrange(1, 3)), 3))
    } else if bytes[0] == 252 && width >= 4 && bytes.len() >= 5 {
        Some((le_value(bytes.subrange(1, 5)), 5))
    } else if bytes[0] == 253 && width >= 8 && bytes.len() >= 9 {
        Some((le_value(bytes.subrange(1, 9)), 9))
    } else {
        None
    }
}

/// Reading a number gives back what was written.
proof fn lemma_number_round_trip(v: nat, width: nat, rest: Seq<u8>)
    requires
        width == 2 || width == 4 || width == 8,
        v < pow256(width),
    ensures
        number_read(number_bytes(v) + rest, width) == Some((v, number_bytes(v).len())),
{
    reveal_with_fuel(pow256, 9);
    let all = number_bytes(v) + rest;
    if v < 251 {
    } else if v < 0x1_0000 {
        lemma_le_round_trip(v, 2);
        assert(all.subrange(1, 3) =~= le_bytes(v, 2));
    } else if v < 0x1_0000_0000 {
        lemma_le_round_trip(v, 4);
        assert(all.subrange(1, 5) =~= le_bytes(v, 4));
    } else {
        lemma_le_round_trip(v, 8);
        assert(all.subrange(1, 9) =~= le_bytes(v, 8));
    }
}

/// Reads the length of a list from the front. A machine with narrower words
/// drops the bits that do not fit.
pub open spec fn count_read(bytes: Seq<u8>) -> Option<(nat, nat)> {
    match number_read(bytes, 8) {
        Some((v, n)) => Some((v % (usize::MAX as nat + 1), n)),
        None => None,
    }
}

/// An identifier on the wire: the count sixteen, then the bytes.
pub open spec fn id_wire(id: u128) -> Seq<u8> {
    number_bytes(16) + be_bytes(id as nat, 16)
}

/// Reads an identifier from the front.
pub open spec fn id_read(bytes: Seq<u8>) -> Option<(u128, nat)> {
    match number_read(bytes, 8) {
        Some((count, n)) => if count == 16 && n + 16 <= bytes.len() {
            Some((be_value(bytes.subrange(n as int, (n + 16) as int)) as u128, n + 16))
        } else {
            None
        },
        None => None,
    }
}

/// A text on the wire: the count of its UTF-8 bytes, then the bytes.
pub open spec fn text_wire(s: Seq<char>) -> Seq<u8> {
    number_bytes(encode_utf8(s).len()) + encode_utf8(s)
}

/// Reads a text from the front.
pub open spec fn text_read(bytes: Seq<u8>) -> Option<(Seq<char>, nat)> {
    match number_read(bytes, 8) {
        Some((count, n)) => if n + count <= bytes.len() && valid_utf8(
            bytes.subrange(n as int, (n + count) as int),
        ) {
            Some((decode_utf8(bytes.subrange(n as int, (n + count) as int)), n + count))
        } else {
            None
        },
        None => None,
    }
}

/// The words with which `bincode` asks for `n` more bytes.
pub open spec fn ends_short(n: nat) -> Seq<char> {
    "UnexpectedEnd { additional: "@ + decimal(n) + " }"@
}

/// The words with which `bincode` refuses bytes as a `bool`.
pub open spec fn flag_error(bytes: Seq<u8>) -> Seq<char> {
    if bytes.len() == 0 {
        ends_short(1)
    } else {
        "InvalidBooleanValue("@ + decimal(bytes[0] as nat) + ")"@
    }
}

/// The words with which `bincode` refuses bytes as the tag of an option.
pub open spec fn option_error(bytes: Seq<u8>) -> Seq<char> {
    if bytes.len() == 0 {
        ends_short(1)
    } else {
        "UnexpectedVariant { type_name: \"Option<T>\", allowed: Range { min: 0, max: 1 }, found: "@
            + decimal(bytes[0] as nat) + " }"@
    }
}

/// The words with which `bincode` refuses bytes as a number of at most `width`
/// bytes, of the type `expected`: bytes are missing, or the first one announces
/// a number that is too wide.
pub open spec fn number_error(bytes: Seq<u8>, width: nat, expected: Seq<char>) -> Seq<char> {
    let too_wide = "InvalidIntegerType { expected: "@ + expected + ", found: "@;
    if bytes.len() == 0 {
        ends_short(1)
    } else if bytes[0] <= 251 {
        ends_short((3 - bytes.len()) as nat)
    } else if bytes[0] == 252 {
        if width >= 4 {
            ends_short((5 - bytes.len()) as nat)
        } else {
            too_wide + "U32 }"@
        }
    } else if bytes[0] == 253 {
        if width >= 8 {
            ends_short((9 - bytes.len()) as nat)
        } else {
            too_wide + "U64 }"@
        }
    } else if bytes[0] == 254 {
        too_wide + "U128 }"@
    } else {
        too_wide + "Reserved }"@
    }
}

/// The words with which `bincode` refuses bytes as a `u16`.
pub open spec fn u16_error(bytes: Seq<u8>) -> Seq<char> {
    number_error(bytes, 2, "U16"@)
}

/// The words with which `bincode` refuses bytes as a `u32`.
pub open spec fn u32_error(bytes: Seq<u8>) -> Seq<char> {
    number_error(bytes, 4, "U32"@)
}

/// The words with which `bincode` refuses bytes as a `u64`. Where nine bytes are
/// there to be looked at, it calls the type that it expected `U32`.
pub open spec fn u64_error(bytes: Seq<u8>) -> Seq<char> {
    number_error(
        bytes,
        8,
        if bytes.len() >= 9 {
            "U32"@
        } else {
            "U64"@
        },
    )
}

/// The words with which `bincode` refuses bytes as a length.
pub open spec fn count_error(bytes: Seq<u8>) -> Seq<char> {
    number_error(bytes, 8, "Usize"@)
}

/// The words with which `bincode` refuses bytes as four fixed bytes.
pub open spec fn word_error(bytes: Seq<u8>) -> Seq<char> {
    ends_short((4 - bytes.len()) as nat)
}

/// The words with which `bincode` refuses bytes as a count and that many bytes,
/// where `largest` is the largest length the machine can hold and `unfit` what
/// is said of bytes that are there and of no use.
pub open spec fn counted_error(bytes: Seq<u8>, largest: nat, unfit: Seq<char>) -> Seq<char> {
    match number_read(bytes, 8) {
        None => u64_error(bytes),
        Some((count, n)) => if count > largest {
            "OutsideUsizeRange("@ + decimal(count) + ")"@
        } else if n + count > bytes.len() {
            ends_short((n + count - bytes.len()) as nat)
        } else {
            unfit
        },
    }
}

/// The bytes that a count at the front announces.
pub open spec fn counted(bytes: Seq<u8>) -> Seq<u8> {
    let (count, n) = number_read(bytes, 8)->0;
    bytes.subrange(n as int, (n + count) as int)
}

/// The words with which `bincode` refuses bytes as an identifier, where
/// `largest` is the largest length the machine can hold.
pub open spec fn id_error(bytes: Seq<u8>, largest: nat) -> Seq<char> {
    counted_error(
        bytes,
        largest,
        "OtherString(\"UUID parsing failed: invalid length: expected 16 bytes, found "@ + decimal(
            counted(bytes).len(),
        ) + "\")"@,
    )
}

/// The words with which `bincode` refuses bytes that are no UTF-8.
pub uninterp spec fn utf8_error(bytes: Seq<u8>) -> Seq<char>;

/// The words with which `serde` refuses the index of one of `variants`, printed
/// by `bincode`.
pub open spec fn variant_error(found: u64, variants: nat) -> Seq<char> {
    "OtherString(\"invalid value: integer `"@ + decimal(found as nat)
        + "`, expected variant index 0 <= i < "@ + decimal(variants) + "\")"@
}

/// Reads one byte.
///
/// `bincode::serde::decode_from_slice` for a `u8` takes the first byte as it
/// is, and fails only where there is none. Its error is printed as its variant
/// and fields: see [`ends_short`].
#[verifier::external_body]
fn decode_byte(bytes: &[u8]) -> (r: Result<(u8, usize), String>)
    ensures
        match r {
            Ok((v, n)) => bytes@.len() > 0 && v == bytes@[0] && n == 1,
            Err(text) => bytes@.len() == 0 && text@ == ends_short(1),
        },
{
    match bincode::serde::decode_from_slice::<u8, _>(bytes, bincode::config::standard()) {
        Ok(found) => Ok(found),
        Err(e) => Err(e.to_string()),
    }
}

/// Reads a truth value.
///
/// `bincode::serde::decode_from_slice` for a `bool` takes the first byte, zero
/// for false and one for true, and fails on any other or where there is none:
/// see [`flag_error`].
#[verifier::external_body]
fn decode_flag(bytes: &[u8]) -> (r: Result<(bool, usize), String>)
    ensures
        match r {
            Ok((v, n)) => bytes@.len() > 0 && bytes@[0] == (if v {
                1u8
            } else {
                0u8
            }) && n == 1,
            Err(text) => (bytes@.len() == 0 || bytes@[0] > 1) && text@ == flag_error(bytes@),
        },
{
    match bincode::serde::decode_from_slice::<bool, _>(bytes, bincode::config::standard()) {
        Ok(found) => Ok(found),
        Err(e) => Err(e.to_string()),
    }
}

/// Reads whether an option holds something.
///
/// `bincode::serde::decode_from_slice` for an `Option` takes the first byte,
/// zero for `None` and one for `Some`, and fails on any other or where there is
/// none, see [`option_error`]; the unit inside takes no bytes.
#[verifier::external_body]
fn decode_option(bytes: &[u8]) -> (r: Result<(Option<()>, usize), String>)
    ensures
        match r {
            Ok((v, n)) => bytes@.len() > 0 && bytes@[0] == (if v is Some {
                1u8
            } else {
                0u8
            }) && n == 1,
            Err(text) => (bytes@.len() == 0 || bytes@[0] > 1) && text@ == option_error(bytes@),
        },
{
    match bincode::serde::decode_from_slice::<Option<()>, _>(bytes, bincode::config::standard()) {
        Ok(found) => Ok(found),
        Err(e) => Err(e.to_string()),
    }
}

/// Reads a number of at most two bytes.
///
/// `bincode::serde::decode_from_slice` for a `u16`: see [`number_read`] and, for
/// the words of its error, [`number_error`].
#[verifier::external_body]
fn decode_u16(bytes: &[u8]) -> (r: Result<(u16, usize), String>)
    ensures
        match r {
            Ok((v, n)) => number_read(bytes@, 2) == Some((v as nat, n as nat)) && n
                <= bytes@.len(),
            Err(text) => number_read(bytes@, 2) is None && text@ == u16_error(bytes@),
        },
{
    match bincode::serde::decode_from_slice::<u16, _>(bytes, bincode::config::standard()) {
        Ok(found) => Ok(found),
        Err(e) => Err(e.to_string()),
    }
}

/// Reads a number of at most four bytes.
///
/// `bincode::serde::decode_from_slice` for a `u32`: see [`number_read`] and, for
/// the words of its error, [`number_error`].
#[verifier::external_body]
fn decode_u32(bytes: &[u8]) -> (r: Result<(u32, usize), String>)
    ensures
        match r {
            Ok((v, n)) => number_read(bytes@, 4) == Some((v as nat, n as nat)) && n
                <= bytes@.len(),
            Err(text) => number_read(bytes@, 4) is None && text@ == u32_error(bytes@),
        },
{
    match bincode::serde::decode_from_slice::<u32, _>(bytes, bincode::config::standard()) {
        Ok(found) => Ok(found),
        Err(e) => Err(e.to_string()),
    }
}

/// Reads a number of at most eight bytes.
///
/// `bincode::serde::decode_from_slice` for a `u64`: see [`number_read`] and, for
/// the words of its error, [`number_error`].
#[verifier::external_body]
fn decode_u64(bytes: &[u8]) -> (r: Result<(u64, usize), String>)
    ensures
        match r {
            Ok((v, n)) => number_read(bytes@, 8) == Some((v as nat, n as nat)) && n
                <= bytes@.len(),
            Err(text) => number_read(bytes@, 8) is None && text@ == u64_error(bytes@),
        },
{
    match bincode::serde::decode_from_slice::<u64, _>(bytes, bincode::config::standard()) {
        Ok(found) => Ok(found),
        Err(e) => Err(e.to_string()),
    }
}

/// Reads the length of a list.
///
/// `bincode::decode_from_slice` for a `usize`, which is how a list's length is
/// read: as a number of at most eight bytes, see [`number_read`], cut down to
/// the machine's word size. For the words of its error see [`number_error`].
#[verifier::external_body]
fn decode_count(bytes: &[u8]) -> (r: Result<(usize, usize), String>)
    ensures
        match r {
            Ok((v, n)) => count_read(bytes@) == Some((v as nat, n as nat)) && n <= bytes@.len(),
            Err(text) => count_read(bytes@) is None && text@ == count_error(bytes@),
        },
{
    match bincode::decode_from_slice::<usize, _>(bytes, bincode::config::standard()) {
        Ok(found) => Ok(found),
        Err(e) => Err(e.to_string()),
    }
}

/// Reads four bytes as they are, least significant first.
///
/// `bincode::serde::decode_from_slice` for a `u32` with fixed-size integers
/// takes four bytes, and fails only where there are fewer, see [`word_error`]. A
/// single-precision number has the same four bytes.
#[verifier::external_body]
fn decode_word(bytes: &[u8]) -> (r: Result<(u32, usize), String>)
    ensures
        match r {
            Ok((v, n)) => bytes@.len() >= 4 && v as nat == le_value(bytes@.take(4)) && n == 4,
            Err(text) => bytes@.len() < 4 && text@ == word_error(bytes@),
        },
{
    let config = bincode::config::standard().with_fixed_int_encoding();
    match bincode::serde::decode_from_slice::<u32, _>(bytes, config) {
        Ok(found) => Ok(found),
        Err(e) => Err(e.to_string()),
    }
}

/// Reads an identifier.
///
/// `bincode::serde::decode_from_slice` for a `uuid::Uuid` reads a count and
/// that many bytes, and `uuid` accepts exactly sixteen: see [`id_read`] and, for
/// the words of its error, [`id_error`].
#[verifier::external_body]
fn decode_id(bytes: &[u8]) -> (r: Result<(u128, usize), String>)
    ensures
        match r {
            Ok((v, n)) => id_read(bytes@) == Some((v, n as nat)) && n <= bytes@.len(),
            Err(text) => id_read(bytes@) is None && text@ == id_error(bytes@, usize::MAX as nat),
        },
{
    match bincode::serde::decode_from_slice::<uuid::Uuid, _>(bytes, bincode::config::standard()) {
        Ok((id, n)) => Ok((id.as_u128(), n)),
        Err(e) => Err(e.to_string()),
    }
}

/// Reads a text.
///
/// `bincode::serde::borrow_decode_from_slice` for a `&str` reads a count and
/// that many bytes, which must be there and be UTF-8: see [`text_read`] and, for
/// the words of its error, [`counted_error`]. What it says of bytes that are no
/// UTF-8 is a function of these bytes.
#[verifier::external_body]
fn decode_text(bytes: &[u8]) -> (r: Result<(String, usize), String>)
    ensures
        match r {
            Ok((v, n)) => text_read(bytes@) == Some((v@, n as nat)) && n <= bytes@.len(),
            Err(text) => text_read(bytes@) is None && text@ == counted_error(
                bytes@,
                usize::MAX as nat,
                utf8_error(counted(bytes@)),
            ),
        },
{
    match bincode::serde::borrow_decode_from_slice::<&str, _>(bytes, bincode::config::standard()) {
        Ok((text, n)) => Ok((text.to_owned(), n)),
        Err(e) => Err(e.to_string()),
    }
}

/// What is said of the index of one of `variants` that is out of range.
///
/// `serde::de::Error::invalid_value` of `bincode`'s error, which is what a
/// derived `Deserialize` calls on an unknown variant index: see
/// [`variant_error`].
#[verifier::external_body]
fn variant_refusal(found: u64, variants: u32) -> (r: String)
    ensures
        r@ == variant_error(found, variants as nat),
{
    let unexpected = serde::de::Unexpected::Unsigned(found);
    let expected = format!("variant index 0 <= i < {variants}");
    let error: bincode::error::DecodeError =
        serde::de::Error::invalid_value(unexpected, &expected.as_str());
    error.to_string()
}

/// Writes a number.
///
/// `bincode::serde::encode_to_vec` for a `u64`: see [`number_bytes`]. Narrower
/// integers take the same bytes. Writing to a vector does not fail.
#[verifier::external_body]
pub(crate) fn encode_number(v: u64) -> (r: Result<Vec<u8>, String>)
    ensures
        match r {
            Ok(bytes) => bytes@ == number_bytes(v as nat),
            Err(_) => false,
        },
{
    match bincode::serde::encode_to_vec(v, bincode::config::standard()) {
        Ok(bytes) => Ok(bytes),
        Err(e) => Err(e.to_string()),
    }
}

/// Writes an identifier.
///
/// `bincode::serde::encode_to_vec` for a `uuid::Uuid`, which is handed over as
/// its sixteen bytes: see [`id_wire`]. Writing to a vector does not fail.
#[verifier::external_body]
fn encode_id(id: u128) -> (r: Result<Vec<u8>, String>)
    ensures
        match r {
            Ok(bytes) => bytes@ == id_wire(id),
            Err(_) => false,
        },
{
    let id = uuid::Uuid::from_u128(id);
    match bincode::serde::encode_to_vec(id, bincode::config::standard()) {
        Ok(bytes) => Ok(bytes),
        Err(e) => Err(e.to_string()),
    }
}

/// Writes a text.
///
/// `bincode::serde::encode_to_vec` for a `&str`: see [`text_wire`]. Writing to
/// a vector does not fail.
#[verifier::external_body]
fn encode_text(text: &str) -> (r: Result<Vec<u8>, String>)
    ensures
        match r {
            Ok(bytes) => bytes@ == text_wire(text@),
            Err(_) => false,
        },
{
    match bincode::serde::encode_to_vec(text, bincode::config::standard()) {
        Ok(bytes) => Ok(bytes),
        Err(e) => Err(e.to_string()),
    }
}

/// What reading a value from the front of bytes comes to: the value and how
/// many bytes it took, or the words of the refusal.
pub type ReadView<V> = Result<(V, nat), Seq<char>>;

/// Values with a place on the wire.
pub trait Wire: Sized {
    /// The mathematical counterpart of a value.
    type Value;

    spec fn value(&self) -> Self::Value;

    /// What the type's own invariant asks of a value.
    spec fn valid(&self) -> bool;

    /// A value's bytes.
    spec fn bytes(v: Self::Value) -> Seq<u8>;

    /// What bytes read as.
    spec fn read(bytes: Seq<u8>) -> ReadView<Self::Value>;

    /// Whether a value comes back from its bytes: its lists and texts are no
    /// longer than a machine can count, and the draw order of its sets names
    /// exactly what is visible.
    spec fn faithful(v: Self::Value) -> bool;

    proof fn round_trip(v: Self::Value, rest: Seq<u8>)
        requires
            Self::faithful(v),
        ensures
            Self::read(Self::bytes(v) + rest) == Ok::<(Self::Value, nat), Seq<char>>(
                (v, Self::bytes(v).len()),
            ),
    ;

    /// Append the bytes.
    fn put(&self, out: &mut Vec<u8>) -> (r: Result<(), String>)
        requires
            self.valid(),
        ensures
            r is Ok,
            final(out)@ == old(out)@ + Self::bytes(self.value()),
    ;

    /// Read from the front.
    fn get(bytes: &[u8]) -> (r: Result<(Self, usize), String>)
        ensures
            match r {
                Ok((v, n)) => v.valid() && n <= bytes@.len() && Self::read(bytes@) == Ok::<
                    (Self::Value, nat),
                    Seq<char>,
                >((v.value(), n as nat)),
                Err(text) => Self::read(bytes@) == Err::<(Self::Value, nat), Seq<char>>(text@),
            },
    ;
}

/// Append bytes that were written elsewhere.
pub(crate) fn put_all(out: &mut Vec<u8>, written: Result<Vec<u8>, String>) -> (r: Result<
    (),
    String,
>)
    ensures
        match written {
            Ok(bytes) => r is Ok && final(out)@ == old(out)@ + bytes@,
            Err(text) => r == Err::<(), String>(text) && final(out)@ == old(out)@,
        },
{
    match written {
        Ok(bytes) => {
            let mut bytes = bytes;
            out.append(&mut bytes);
            Ok(())
        },
        Err(text) => Err(text),
    }
}

impl Wire for u8 {
    type Value = u8;

    open spec fn value(&self) -> u8 {
        *self
    }

    open spec fn valid(&self) -> bool {
        true
    }

    open spec fn bytes(v: u8) -> Seq<u8> {
        seq![v]
    }

    open spec fn read(bytes: Seq<u8>) -> ReadView<u8> {
        if bytes.len() > 0 {
            Ok((bytes[0], 1))
        } else {
            Err(ends_short(1))
        }
    }

    open spec fn faithful(v: u8) -> bool {
        true
    }

    proof fn round_trip(v: u8, rest: Seq<u8>) {
    }

    fn put(&self, out: &mut Vec<u8>) -> (r: Result<(), String>) {
        out.push(*self);
        assert(out@ =~= old(out)@ + seq![*self]);
        Ok(())
    }

    fn get(bytes: &[u8]) -> (r: Result<(u8, usize), String>) {
        decode_byte(bytes)
    }
}

impl Wire for bool {
    type Value = bool;

    open spec fn value(&self) -> bool {
        *self
    }

    open spec fn valid(&self) -> bool {
        true
    }

    open spec fn bytes(v: bool) -> Seq<u8> {
        seq![if v { 1u8 } else { 0u8 }]
    }

    open spec fn read(bytes: Seq<u8>) -> ReadView<bool> {
        if bytes.len() > 0 && bytes[0] <= 1 {
            Ok((bytes[0] == 1, 1))
        } else {
            Err(flag_error(bytes))
        }
    }

    open spec fn faithful(v: bool) -> bool {
        true
    }

    proof fn round_trip(v: bool, rest: Seq<u8>) {
    }

    fn put(&self, out: &mut Vec<u8>) -> (r: Result<(), String>) {
        let b: u8 = if *self {
            1
        } else {
            0
        };
        out.push(b);
        assert(out@ =~= old(out)@ + seq![b]);
        Ok(())
    }

    fn get(bytes: &[u8]) -> (r: Result<(bool, usize), String>) {
        decode_flag(bytes)
    }
}

impl Wire for u16 {
    type Value = u16;

    open spec fn value(&self) -> u16 {
        *self
    }

    open spec fn valid(&self) -> bool {
        true
    }

    open spec fn bytes(v: u16) -> Seq<u8> {
        number_bytes(v as nat)
    }

    open spec fn read(bytes: Seq<u8>) -> ReadView<u16> {
        match number_read(bytes, 2) {
            Some((v, n)) => Ok((v as u16, n)),
            None => Err(u16_error(bytes)),
        }
    }

    open spec fn faithful(v: u16) -> bool {
        true
    }

    proof fn round_trip(v: u16, rest: Seq<u8>) {
        reveal_with_fuel(pow256, 3);
        lemma_number_round_trip(v as nat, 2, rest);
    }

    fn put(&self, out: &mut Vec<u8>) -> (r: Result<(), String>) {
        put_all(out, encode_number(*self as u64))
    }

    fn get(bytes: &[u8]) -> (r: Result<(u16, usize), String>) {
        decode_u16(bytes)
    }
}

impl Wire for u64 {
    type Value = u64;

    open spec fn value(&self) -> u64 {
        *self
    }

    open spec fn valid(&self) -> bool {
        true
    }

    open spec fn bytes(v: u64) -> Seq<u8> {
        number_bytes(v as nat)
    }

    open spec fn read(bytes: Seq<u8>) -> ReadView<u64> {
        match number_read(bytes, 8) {
            Some((v, n)) => Ok((v as u64, n)),
            None => Err(u64_error(bytes)),
        }
    }

    open spec fn faithful(v: u64) -> bool {
        true
    }

    proof fn round_trip(v: u64, rest: Seq<u8>) {
        reveal_with_fuel(pow256, 9);
        lemma_number_round_trip(v as nat, 8, rest);
    }

    fn put(&self, out: &mut Vec<u8>) -> (r: Result<(), String>) {
        put_all(out, encode_number(*self))
    }

    fn get(bytes: &[u8]) -> (r: Result<(u64, usize), String>) {
        decode_u64(bytes)
    }
}

/// Identifiers.
impl Wire for u128 {
    type Value = u128;

    open spec fn value(&self) -> u128 {
        *self
    }

    open spec fn valid(&self) -> bool {
        true
    }

    open spec fn bytes(v: u128) -> Seq<u8> {
        id_wire(v)
    }

    open spec fn read(bytes: Seq<u8>) -> ReadView<u128> {
        match id_read(bytes) {
            Some((v, n)) => Ok((v, n)),
            None => Err(id_error(bytes, usize::MAX as nat)),
        }
    }

    open spec fn faithful(v: u128) -> bool {
        true
    }

    proof fn round_trip(v: u128, rest: Seq<u8>) {
        reveal_with_fuel(pow256, 9);
        let all = id_wire(v) + rest;
        lemma_number_round_trip(16, 8, be_bytes(v as nat, 16) + rest);
        assert(all =~= number_bytes(16) + (be_bytes(v as nat, 16) + rest));
        lemma_be_bytes_len(v as nat, 16);
        assert(all.subrange(1, 17) =~= be_bytes(v as nat, 16));
        lemma_pow256_16();
        lemma_be_round_trip(v as nat, 16);
    }

    fn put(&self, out: &mut Vec<u8>) -> (r: Result<(), String>) {
        put_all(out, encode_id(*self))
    }

    fn get(bytes: &[u8]) -> (r: Result<(u128, usize), String>) {
        decode_id(bytes)
    }
}

impl Wire for String {
    type Value = Seq<char>;

    open spec fn value(&self) -> Seq<char> {
        self@
    }

    open spec fn valid(&self) -> bool {
        true
    }

    open spec fn bytes(v: Seq<char>) -> Seq<u8> {
        text_wire(v)
    }

    open spec fn read(bytes: Seq<u8>) -> ReadView<Seq<char>> {
        match text_read(bytes) {
            Some((v, n)) => Ok((v, n)),
            None => Err(
                counted_error(bytes, usize::MAX as nat, utf8_error(counted(bytes))),
            ),
        }
    }

    open spec fn faithful(v: Seq<char>) -> bool {
        encode_utf8(v).len() <= u64::MAX
    }

    proof fn round_trip(v: Seq<char>, rest: Seq<u8>) {
        broadcast use {vstd::utf8::encode_utf8_valid_utf8, vstd::utf8::encode_utf8_decode_utf8};

        reveal_with_fuel(pow256, 9);
        let body = encode_utf8(v);
        let head = number_bytes(body.len());
        let all = text_wire(v) + rest;
        lemma_number_round_trip(body.len(), 8, body + rest);
        assert(all =~= head + (body + rest));
        assert(all.subrange(head.len() as int, (head.len() + body.len()) as int) =~= body);
    }

    fn put(&self, out: &mut Vec<u8>) -> (r: Result<(), String>) {
        put_all(out, encode_text(self.as_str()))
    }

    fn get(bytes: &[u8]) -> (r: Result<(String, usize), String>) {
        decode_text(bytes)
    }
}

/// Four bytes, least significant first.
impl Wire for Scalar {
    type Value = Scalar;

    open spec fn value(&self) -> Scalar {
        *self
    }

    open spec fn valid(&self) -> bool {
        true
    }

    open spec fn bytes(v: Scalar) -> Seq<u8> {
        le_bytes(v.bits as nat, 4)
    }

    open spec fn read(bytes: Seq<u8>) -> ReadView<Scalar> {
        if bytes.len() >= 4 {
            Ok((Scalar { bits: le_value(bytes.take(4)) as u32 }, 4))
        } else {
            Err(word_error(bytes))
        }
    }

    open spec fn faithful(v: Scalar) -> bool {
        true
    }

    proof fn round_trip(v: Scalar, rest: Seq<u8>) {
        reveal_with_fuel(pow256, 5);
        lemma_le_round_trip(v.bits as nat, 4);
        assert((le_bytes(v.bits as nat, 4) + rest).take(4) =~= le_bytes(v.bits as nat, 4));
    }

    fn put(&self, out: &mut Vec<u8>) -> (r: Result<(), String>) {
        let v = self.bits;
        out.push((v % 256) as u8);
        out.push((v / 256 % 256) as u8);
        out.push((v / 256 / 256 % 256) as u8);
        out.push((v / 256 / 256 / 256 % 256) as u8);
        proof {
            reveal_with_fuel(le_bytes, 5);
            assert(out@ =~= old(out)@ + le_bytes(v as nat, 4));
        }
        Ok(())
    }

    fn get(bytes: &[u8]) -> (r: Result<(Scalar, usize), String>) {
        match decode_word(bytes) {
            Ok((bits, n)) => Ok((Scalar { bits }, n)),
            Err(text) => Err(text),
        }
    }
}

/// One after the other.
impl<A: Wire, B: Wire> Wire for (A, B) {
    type Value = (A::Value, B::Value);

    open spec fn value(&self) -> (A::Value, B::Value) {
        (self.0.value(), self.1.value())
    }

    open spec fn valid(&self) -> bool {
        self.0.valid() && self.1.valid()
    }

    open spec fn bytes(v: (A::Value, B::Value)) -> Seq<u8> {
        A::bytes(v.0) + B::bytes(v.1)
    }

    open spec fn read(bytes: Seq<u8>) -> ReadView<(A::Value, B::Value)> {
        match A::read(bytes) {
            Ok((a, n)) => match B::read(bytes.skip(n as int)) {
                Ok((b, m)) => Ok(((a, b), n + m)),
                Err(text) => Err(text),
            },
            Err(text) => Err(text),
        }
    }

    open spec fn faithful(v: (A::Value, B::Value)) -> bool {
        A::faithful(v.0) && B::faithful(v.1)
    }

    proof fn round_trip(v: (A::Value, B::Value), rest: Seq<u8>) {
        let (a, b) = (A::bytes(v.0), B::bytes(v.1));
        A::round_trip(v.0, b + rest);
        B::round_trip(v.1, rest);
        assert(Self::bytes(v) + rest =~= a + (b + rest));
        assert((a + (b + rest)).skip(a.len() as int) =~= b + rest);
    }

    fn put(&self, out: &mut Vec<u8>) -> (r: Result<(), String>) {
        let ghost before = out@;
        match self.0.put(out) {
            Ok(()) => {},
            Err(text) => return Err(text),
        }
        let r = self.1.put(out);
        assert(out@ =~= before + Self::bytes(self.value()));
        r
    }

    fn get(bytes: &[u8]) -> (r: Result<((A, B), usize), String>) {
        let (a, n) = match A::get(bytes) {
            Ok(found) => found,
            Err(text) => return Err(text),
        };
        let rest = slice_subrange(bytes, n, bytes.len());
        assert(rest@ =~= bytes@.skip(n as int));
        match B::get(rest) {
            Ok((b, m)) => Ok(((a, b), n + m)),
            Err(text) => Err(text),
        }
    }
}

impl<T: Wire> Wire for Option<T> {
    type Value = Option<T::Value>;

    open spec fn value(&self) -> Option<T::Value> {
        match self {
            Some(t) => Some(t.value()),
            None => None,
        }
    }

    open spec fn valid(&self) -> bool {
        match self {
            Some(t) => t.valid(),
            None => true,
        }
    }

    open spec fn bytes(v: Option<T::Value>) -> Seq<u8> {
        match v {
            Some(t) => seq![1u8] + T::bytes(t),
            None => seq![0u8],
        }
    }

    open spec fn read(bytes: Seq<u8>) -> ReadView<Option<T::Value>> {
        if bytes.len() == 0 || bytes[0] > 1 {
            Err(option_error(bytes))
        } else if bytes[0] == 0 {
            Ok((None, 1))
        } else {
            match T::read(bytes.skip(1)) {
                Ok((t, n)) => Ok((Some(t), 1 + n)),
                Err(text) => Err(text),
            }
        }
    }

    open spec fn faithful(v: Option<T::Value>) -> bool {
        match v {
            Some(t) => T::faithful(t),
            None => true,
        }
    }

    proof fn round_trip(v: Option<T::Value>, rest: Seq<u8>) {
        if let Some(t) = v {
            T::round_trip(t, rest);
            assert((Self::bytes(v) + rest).skip(1) =~= T::bytes(t) + rest);
        }
    }

    fn put(&self, out: &mut Vec<u8>) -> (r: Result<(), String>) {
        let ghost before = out@;
        match self {
            Some(t) => {
                out.push(1);
                let r = t.put(out);
                assert(out@ =~= before + Self::bytes(self.value()));
                r
            },
            None => {
                out.push(0);
                assert(out@ =~= before + Self::bytes(self.value()));
                Ok(())
            },
        }
    }

    fn get(bytes: &[u8]) -> (r: Result<(Option<T>, usize), String>) {
        match decode_option(bytes) {
            Ok((Some(_), _)) => {
                let rest = slice_subrange(bytes, 1, bytes.len());
                assert(rest@ =~= bytes@.skip(1));
                match T::get(rest) {
                    Ok((t, n)) => Ok((Some(t), 1 + n)),
                    Err(text) => Err(text),
                }
            },
            Ok((None, n)) => Ok((None, n)),
            Err(text) => Err(text),
        }
    }
}

/// The bytes of values one after the other.
pub open spec fn items_bytes<T: Wire>(items: Seq<T::Value>) -> Seq<u8>
    decreases items.len(),
{
    if items.len() == 0 {
        Seq::empty()
    } else {
        items_bytes::<T>(items.drop_last()) + T::bytes(items.last())
    }
}

/// Reads `count` values one after the other.
pub open spec fn items_read<T: Wire>(bytes: Seq<u8>, count: nat) -> ReadView<Seq<T::Value>>
    decreases count,
{
    if count == 0 {
        Ok((Seq::empty(), 0))
    } else {
        match items_read::<T>(bytes, (count - 1) as nat) {
            Ok((front, n)) => match T::read(bytes.skip(n as int)) {
                Ok((v, m)) => Ok((front.push(v), n + m)),
                Err(text) => Err(text),
            },
            Err(text) => Err(text),
        }
    }
}

proof fn lemma_items_round_trip<T: Wire>(items: Seq<T::Value>, rest: Seq<u8>)
    requires
        forall|i: int| 0 <= i < items.len() ==> T::faithful(#[trigger] items[i]),
    ensures
        items_read::<T>(items_bytes::<T>(items) + rest, items.len()) == Ok::<
            (Seq<T::Value>, nat),
            Seq<char>,
        >((items, items_bytes::<T>(items).len())),
    decreases items.len(),
{
    if items.len() == 0 {
        assert(items =~= Seq::empty());
    } else {
        let front = items.drop_last();
        let last = items.last();
        assert(items[items.len() - 1] == last);
        assert forall|i: int| 0 <= i < front.len() implies T::faithful(#[trigger] front[i]) by {
            assert(front[i] == items[i]);
        }
        lemma_items_round_trip::<T>(front, T::bytes(last) + rest);
        T::round_trip(last, rest);
        let all = items_bytes::<T>(items) + rest;
        let head = items_bytes::<T>(front);
        assert(all =~= head + (T::bytes(last) + rest));
        assert(all.skip(head.len() as int) =~= T::bytes(last) + rest);
        assert(front.push(last) =~= items);
    }
}

proof fn lemma_items_refused<T: Wire>(bytes: Seq<u8>, some: nat, all: nat)
    requires
        some <= all,
        items_read::<T>(bytes, some) is Err,
    ensures
        items_read::<T>(bytes, all) == items_read::<T>(bytes, some),
    decreases all,
{
    if some < all {
        lemma_items_refused::<T>(bytes, some, (all - 1) as nat);
    }
}

/// The mathematical counterparts of a list.
pub open spec fn values<T: Wire>(items: Seq<T>) -> Seq<T::Value> {
    items.map_values(|t: T| t.value())
}

/// A count, then the values.
impl<T: Wire> Wire for Vec<T> {
    type Value = Seq<T::Value>;

    open spec fn value(&self) -> Seq<T::Value> {
        values(self@)
    }

    open spec fn valid(&self) -> bool {
        forall|i: int| 0 <= i < self@.len() ==> (#[trigger] self@[i]).valid()
    }

    open spec fn bytes(v: Seq<T::Value>) -> Seq<u8> {
        number_bytes(v.len()) + items_bytes::<T>(v)
    }

    open spec fn read(bytes: Seq<u8>) -> ReadView<Seq<T::Value>> {
        match count_read(bytes) {
            Some((count, n)) => match items_read::<T>(bytes.skip(n as int), count) {
                Ok((v, m)) => Ok((v, n + m)),
                Err(text) => Err(text),
            },
            None => Err(count_error(bytes)),
        }
    }

    open spec fn faithful(v: Seq<T::Value>) -> bool {
        v.len() <= usize::MAX && forall|i: int| 0 <= i < v.len() ==> T::faithful(#[trigger] v[i])
    }

    proof fn round_trip(v: Seq<T::Value>, rest: Seq<u8>) {
        reveal_with_fuel(pow256, 9);
        let head = number_bytes(v.len());
        let body = items_bytes::<T>(v);
        lemma_number_round_trip(v.len(), 8, body + rest);
        lemma_items_round_trip::<T>(v, rest);
        let all = Self::bytes(v) + rest;
        assert(all =~= head + (body + rest));
        assert(all.skip(head.len() as int) =~= body + rest);
        assert(v.len() % (usize::MAX as nat + 1) == v.len()) by (nonlinear_arith)
            requires
                v.len() <= usize::MAX,
        ;
    }

    fn put(&self, out: &mut Vec<u8>) -> (r: Result<(), String>) {
        let ghost before = out@;
        match put_all(out, encode_number(self.len() as u64)) {
            Ok(()) => {},
            Err(text) => return Err(text),
        }
        let ghost all = self.value();
        let ghost head = out@;
        assert(head =~= head + items_bytes::<T>(all.take(0)));
        let mut i: usize = 0;
        while i < self.len()
            invariant
                i <= self.len(),
                self.valid(),
                all == self.value(),
                out@ == head + items_bytes::<T>(all.take(i as int)),
            decreases self.len() - i,
        {
            match self[i].put(out) {
                Ok(()) => {},
                Err(text) => return Err(text),
            }
            proof {
                assert(all.take(i + 1).drop_last() =~= all.take(i as int));
                assert(out@ =~= head + items_bytes::<T>(all.take(i + 1)));
            }
            i += 1;
        }
        assert(all.take(i as int) =~= all);
        assert(out@ =~= before + Self::bytes(all));
        Ok(())
    }

    fn get(bytes: &[u8]) -> (r: Result<(Vec<T>, usize), String>) {
        let (count, n) = match decode_count(bytes) {
            Ok(found) => found,
            Err(text) => return Err(text),
        };
        let ghost body = bytes@.skip(n as int);
        let mut out: Vec<T> = Vec::new();
        let mut at: usize = n;
        let mut i: usize = 0;
        assert(values(out@) =~= Seq::empty());
        while i < count
            invariant
                n <= at <= bytes@.len(),
                i <= count,
                body == bytes@.skip(n as int),
                count_read(bytes@) == Some((count as nat, n as nat)),
                items_read::<T>(body, i as nat) == Ok::<(Seq<T::Value>, nat), Seq<char>>(
                    (values(out@), (at - n) as nat),
                ),
                forall|k: int| 0 <= k < out@.len() ==> (#[trigger] out@[k]).valid(),
            decreases count - i,
        {
            let rest = slice_subrange(bytes, at, bytes.len());
            assert(rest@ =~= body.skip(at - n));
            let ghost done = out@;
            match T::get(rest) {
                Ok((v, m)) => {
                    out.push(v);
                    assert(values(out@) =~= values(done).push(v.value()));
                    at += m;
                },
                Err(text) => {
                    proof {
                        lemma_items_refused::<T>(body, (i + 1) as nat, count as nat);
                    }
                    return Err(text);
                },
            }
            i += 1;
        }
        Ok((out, at))
    }
}

/// Reads the index of an enum's variant, one of `variants`.
pub open spec fn tag_read(bytes: Seq<u8>, variants: nat) -> ReadView<u32> {
    match number_read(bytes, 4) {
        Some((v, n)) => if v < variants {
            Ok((v as u32, n))
        } else {
            Err(variant_error(v as u64, variants))
        },
        None => Err(u32_error(bytes)),
    }
}

/// Reads a value that follows `n` bytes.
pub open spec fn read_after<T: Wire>(bytes: Seq<u8>, n: nat) -> ReadView<T::Value> {
    match T::read(bytes.skip(n as int)) {
        Ok((v, m)) => Ok((v, n + m)),
        Err(text) => Err(text),
    }
}

pub proof fn lemma_tag_round_trip(tag: u32, variants: nat, rest: Seq<u8>)
    requires
        tag < variants <= 250,
    ensures
        number_bytes(tag as nat).len() == 1,
        tag_read(number_bytes(tag as nat) + rest, variants) == Ok::<(u32, nat), Seq<char>>(
            (tag, 1),
        ),
{
    reveal_with_fuel(pow256, 5);
    lemma_number_round_trip(tag as nat, 4, rest);
}

pub proof fn lemma_tagged_round_trip<T: Wire>(
    tag: u32,
    variants: nat,
    v: T::Value,
    rest: Seq<u8>,
)
    requires
        tag < variants <= 250,
        T::faithful(v),
    ensures
        ({
            let all = number_bytes(tag as nat) + T::bytes(v) + rest;
            &&& tag_read(all, variants) == Ok::<(u32, nat), Seq<char>>((tag, 1))
            &&& read_after::<T>(all, 1) == Ok::<(T::Value, nat), Seq<char>>(
                (v, 1 + T::bytes(v).len()),
            )
            &&& (number_bytes(tag as nat) + T::bytes(v)).len() == 1 + T::bytes(v).len()
        }),
{
    let all = number_bytes(tag as nat) + T::bytes(v) + rest;
    lemma_tag_round_trip(tag, variants, T::bytes(v) + rest);
    assert(all =~= number_bytes(tag as nat) + (T::bytes(v) + rest));
    T::round_trip(v, rest);
    assert(all.skip(1) =~= T::bytes(v) + rest);
}

pub(crate) fn get_tag(bytes: &[u8], variants: u32) -> (r: Result<(u32, usize), String>)
    ensures
        match r {
            Ok((v, n)) => n <= bytes@.len() && v < variants && tag_read(bytes@, variants as nat)
                == Ok::<(u32, nat), Seq<char>>((v, n as nat)),
            Err(text) => tag_read(bytes@, variants as nat) == Err::<(u32, nat), Seq<char>>(text@),
        },
{
    let (v, n) = match decode_u32(bytes) {
        Ok(found) => found,
        Err(text) => return Err(text),
    };
    if v < variants {
        Ok((v, n))
    } else {
        Err(variant_refusal(v as u64, variants))
    }
}

pub(crate) fn get_after<T: Wire>(bytes: &[u8], n: usize) -> (r: Result<(T, usize), String>)
    requires
        n <= bytes@.len(),
    ensures
        match r {
            Ok((v, m)) => v.valid() && m <= bytes@.len() && read_after::<T>(bytes@, n as nat)
                == Ok::<(T::Value, nat), Seq<char>>((v.value(), m as nat)),
            Err(text) => read_after::<T>(bytes@, n as nat) == Err::<(T::Value, nat), Seq<char>>(
                text@,
            ),
        },
{
    let rest = slice_subrange(bytes, n, bytes.len());
    assert(rest@ =~= bytes@.skip(n as int));
    match T::get(rest) {
        Ok((v, m)) => Ok((v, n + m)),
        Err(text) => Err(text),
    }
}

pub(crate) fn put_tag(out: &mut Vec<u8>, tag: u32) -> (r: Result<(), String>)
    ensures
        r is Ok,
        final(out)@ == old(out)@ + number_bytes(tag as nat),
{
    put_all(out, encode_number(tag as u64))
}

} // verus!
