//! Framing: turn messages into WebSocket payloads and back.
//!
//! The wire format is `bincode`'s standard one: compact binary frames. What
//! goes into a message, and in which order, is laid down in [`crate::layout`].

use vstd::prelude::*;

use crate::protocol::{ClientMessage, ClientView, ServerMessage, ServerView};
use crate::text::{decimal, to_decimal};
use crate::wire::Wire;

verus! {

#[derive(Debug)]
pub enum CodecError {
    Encode(String),
    Decode(String),
    /// A text frame arrived while in binary mode, or vice versa.
    FrameType { expected: &'static str },
}

impl CodecError {
    /// The words shown to a user.
    pub open spec fn words(self) -> Seq<char> {
        match self {
            CodecError::Encode(why) => "encode failed: "@ + why@,
            CodecError::Decode(why) => "decode failed: "@ + why@,
            CodecError::FrameType { expected } => "unexpected frame type (expected "@ + expected@
                + ")"@,
        }
    }

    /// The words shown to a user.
    pub fn describe(&self) -> (r: String)
        ensures
            r@ == self.words(),
    {
        let mut out = String::new();
        match self {
            CodecError::Encode(why) => {
                out.append("encode failed: ");
                out.append(why.as_str());
            },
            CodecError::Decode(why) => {
                out.append("decode failed: ");
                out.append(why.as_str());
            },
            CodecError::FrameType { expected } => {
                out.append("unexpected frame type (expected ");
                out.append(expected);
                out.append(")");
            },
        }
        assert(out@ =~= self.words());
        out
    }
}

/// `true` when messages should be sent as WebSocket *text* frames.
pub fn is_text_wire() -> (r: bool)
    ensures
        !r,
{
    false
}

/// Human-readable name of the active wire format, for logs.
pub fn wire_format() -> (r: &'static str)
    ensures
        r@ == "bincode"@,
{
    "bincode"
}

/// What a whole frame decodes to: the value, where nothing is left over.
pub open spec fn decoded<T: Wire>(bytes: Seq<u8>) -> Result<T::Value, Seq<char>> {
    match T::read(bytes) {
        Ok((v, n)) => if n == bytes.len() {
            Ok(v)
        } else {
            Err(decimal((bytes.len() - n) as nat) + " trailing bytes"@)
        },
        Err(text) => Err(text),
    }
}

/// Serialise any message (or the [`StrokeSet`] itself, for on-disk persistence)
/// with the active wire format.
pub fn encode<T: Wire>(value: &T) -> (r: Result<Vec<u8>, CodecError>)
    requires
        value.valid(),
    ensures
        match r {
            Ok(bytes) => bytes@ == T::bytes(value.value()),
            Err(_) => false,
        },
{
    let mut out: Vec<u8> = Vec::new();
    match value.put(&mut out) {
        Ok(()) => {
            assert(out@ =~= T::bytes(value.value()));
            Ok(out)
        },
        Err(text) => Err(CodecError::Encode(text)),
    }
}

/// Inverse of [`encode`]. Rejects trailing garbage.
pub fn decode<T: Wire>(bytes: &[u8]) -> (r: Result<T, CodecError>)
    ensures
        match r {
            Ok(v) => v.valid() && decoded::<T>(bytes@) == Ok::<T::Value, Seq<char>>(v.value()),
            Err(CodecError::Decode(text)) => decoded::<T>(bytes@) == Err::<T::Value, Seq<char>>(
                text@,
            ),
            Err(_) => false,
        },
{
    match T::get(bytes) {
        Ok((v, n)) => {
            if n == bytes.len() {
                Ok(v)
            } else {
                let mut text = to_decimal((bytes.len() - n) as u128);
                text.append(" trailing bytes");
                Err(CodecError::Decode(text))
            }
        },
        Err(text) => Err(CodecError::Decode(text)),
    }
}

pub fn decode_client(bytes: &[u8]) -> (r: Result<ClientMessage, CodecError>)
    ensures
        match r {
            Ok(msg) => decoded::<ClientMessage>(bytes@) == Ok::<ClientView, Seq<char>>(msg@),
            Err(CodecError::Decode(text)) => decoded::<ClientMessage>(bytes@) == Err::<
                ClientView,
                Seq<char>,
            >(text@),
            Err(_) => false,
        },
{
    decode(bytes)
}

pub fn decode_server(bytes: &[u8]) -> (r: Result<ServerMessage, CodecError>)
    ensures
        match r {
            Ok(msg) => msg.wf() && decoded::<ServerMessage>(bytes@) == Ok::<ServerView, Seq<char>>(
                msg@,
            ),
            Err(CodecError::Decode(text)) => decoded::<ServerMessage>(bytes@) == Err::<
                ServerView,
                Seq<char>,
            >(text@),
            Err(_) => false,
        },
{
    decode(bytes)
}

/// Decoding gives back what was encoded.
pub proof fn law_decode_inverts_encode<T: Wire>(v: T::Value)
    requires
        T::faithful(v),
    ensures
        decoded::<T>(T::bytes(v)) == Ok::<T::Value, Seq<char>>(v),
{
    T::round_trip(v, Seq::empty());
    assert(T::bytes(v) + Seq::<u8>::empty() =~= T::bytes(v));
}

/// Anything after a value is refused, and counted.
pub proof fn law_trailing_bytes_are_rejected<T: Wire>(v: T::Value, rest: Seq<u8>)
    requires
        T::faithful(v),
        rest.len() > 0,
    ensures
        decoded::<T>(T::bytes(v) + rest) == Err::<T::Value, Seq<char>>(
            decimal(rest.len()) + " trailing bytes"@,
        ),
{
    T::round_trip(v, rest);
}

/// No two values share their bytes.
pub proof fn law_encoding_is_injective<T: Wire>(v: T::Value, w: T::Value)
    requires
        T::faithful(v),
        T::faithful(w),
        T::bytes(v) == T::bytes(w),
    ensures
        v == w,
{
    law_decode_inverts_encode::<T>(v);
    law_decode_inverts_encode::<T>(w);
}

} // verus!
