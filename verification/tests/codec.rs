//! The wire format.

use weavedraw::codec::{
    decode, decode_client, decode_server, encode, is_text_wire, wire_format, CodecError,
};
use weavedraw::crdt::{LamportClock, StrokeOp, StrokeSet, Timestamp};
use weavedraw::protocol::{
    ClientMessage, Rejection, ServerMessage, StrokeDelta, PROTOCOL_VERSION,
};
use weavedraw::types::{ClientId, CursorState, Point, Rgba, Scalar, Stroke, StrokeKind};

fn scalar(x: f32) -> Scalar {
    Scalar::from_bits(x.to_bits())
}

fn point(x: f32, y: f32) -> Point {
    Point::new(scalar(x), scalar(y))
}

fn fresh() -> ClientId {
    uuid::Uuid::new_v4().as_u128()
}

fn sample_stroke(client: ClientId) -> Stroke {
    Stroke::new(client, Rgba::from_hex(0xf5c2e7), scalar(3.5)).with_points(vec![
        point(0.0, 0.0),
        point(10.5, -3.25),
        point(42.0, 42.0),
    ])
}

#[test]
fn client_messages_round_trip() {
    let me = fresh();
    let mut clock = LamportClock::new(me);
    let stroke = sample_stroke(me);
    let mut cursor = CursorState::new(me, "huso".to_owned(), Rgba::white());
    cursor.position = Some(point(1.0, 2.0));
    cursor.drawing = true;
    let msgs = vec![
        ClientMessage::Hello {
            protocol: PROTOCOL_VERSION,
            client_id: me,
            room: "lobby".into(),
            name: "huso".into(),
            color: Rgba::from_hex(0x89b4fa),
        },
        ClientMessage::Ops(vec![
            StrokeOp::Add {
                stroke: stroke.clone(),
                ts: clock.tick(),
            },
            StrokeOp::Remove {
                id: stroke.id,
                ts: clock.tick(),
            },
        ]),
        ClientMessage::Cursor(cursor),
        ClientMessage::StrokeDelta(StrokeDelta {
            stroke_id: stroke.id,
            client_id: me,
            color: stroke.color,
            width: stroke.width,
            kind: stroke.kind.clone(),
            points: stroke.points.clone(),
        }),
        ClientMessage::RequestSnapshot,
        ClientMessage::Ping(u64::MAX),
    ];
    for msg in msgs {
        let bytes = encode(&msg).unwrap();
        assert_eq!(decode_client(&bytes).unwrap(), msg);
    }
}

#[test]
fn server_messages_round_trip() {
    let peer = fresh();
    let mut clock = LamportClock::new(peer);
    let mut snapshot = StrokeSet::new();
    snapshot.apply(StrokeOp::Add {
        stroke: sample_stroke(peer),
        ts: clock.tick(),
    });
    let msgs = vec![
        ServerMessage::Welcome {
            client_id: fresh(),
            room: "lobby".into(),
            snapshot: snapshot.clone(),
            peers: vec![CursorState::new(peer, "peer".to_owned(), Rgba::black())],
        },
        ServerMessage::Snapshot(snapshot),
        ServerMessage::Ops {
            from: peer,
            ops: vec![StrokeOp::Remove {
                id: fresh(),
                ts: Timestamp::new(7, peer),
            }],
        },
        ServerMessage::PeerJoined(CursorState::new(peer, "peer".to_owned(), Rgba::black())),
        ServerMessage::PeerLeft(peer),
        ServerMessage::Rejected(Rejection::UnsupportedProtocol {
            server: 1,
            client: 0,
        }),
        ServerMessage::Pong(3),
    ];
    for msg in msgs {
        let bytes = encode(&msg).unwrap();
        assert_eq!(decode_server(&bytes).unwrap(), msg);
    }
}

#[test]
fn garbage_is_rejected() {
    assert!(decode_client(&[0xff; 16]).is_err());
    assert!(decode_server(b"").is_err());
}

#[test]
fn trailing_bytes_are_rejected() {
    let mut bytes = encode(&ClientMessage::Ping(1)).unwrap();
    bytes.push(0);
    assert!(matches!(decode_client(&bytes), Err(CodecError::Decode(_))));
}

#[test]
fn cursor_update_is_small() {
    // Presence traffic is the hot path; keep an eye on its size.
    let mut cursor = CursorState::new(fresh(), "ab".to_owned(), Rgba::white());
    cursor.position = Some(point(123.4, 567.8));
    let msg = ClientMessage::Cursor(cursor);
    let n = encode(&msg).unwrap().len();
    let budget = if is_text_wire() { 256 } else { 48 };
    assert!(n <= budget, "cursor frame is {n} bytes");
}

// ---- the bytes themselves ---------------------------------------------------

#[test]
fn numbers_take_the_bytes_they_need() {
    for (n, tail) in [
        (0u64, vec![0u8]),
        (250, vec![250]),
        (251, vec![251, 251, 0]),
        (65535, vec![251, 255, 255]),
        (65536, vec![252, 0, 0, 1, 0]),
        (0x1_0000_0000, vec![253, 0, 0, 0, 0, 1, 0, 0, 0]),
    ] {
        let mut want = vec![5u8];
        want.extend(tail);
        assert_eq!(encode(&ClientMessage::Ping(n)).unwrap(), want);
        assert_eq!(decode_client(&want).unwrap(), ClientMessage::Ping(n));
    }
}

#[test]
fn a_greeting_is_laid_out_field_by_field() {
    let bytes = encode(&ClientMessage::Hello {
        protocol: 2,
        client_id: 0x0102,
        room: "é".into(),
        name: "".into(),
        color: Rgba::new(1, 2, 3, 4),
    })
    .unwrap();
    let mut want = vec![0u8, 2, 16];
    want.extend([0u8; 14]);
    want.extend([1, 2]);
    want.extend([2, 0xc3, 0xa9, 0]);
    want.extend([1, 2, 3, 4]);
    assert_eq!(bytes, want);
}

#[test]
fn bytes_agree_with_bincode_on_the_same_values() {
    let config = bincode::config::standard();
    let id = uuid::Uuid::from_u128(0x1234_5678_9abc_def0_1234_5678_9abc_def0);
    let kind = StrokeKind::Text {
        content: "hé".into(),
        size: scalar(1.5),
    };
    let delta = StrokeDelta {
        stroke_id: id.as_u128(),
        client_id: 9,
        color: Rgba::new(5, 6, 7, 8),
        width: scalar(-2.25),
        kind,
        points: vec![point(1.0, 2.0), point(3.0, f32::NAN)],
    };
    let same = (
        3u32,
        (id, uuid::Uuid::from_u128(9), [5u8, 6, 7, 8], -2.25f32),
        (4u32, "hé", 1.5f32),
        vec![(1.0f32, 2.0f32), (3.0, f32::NAN)],
    );
    assert_eq!(
        encode(&ClientMessage::StrokeDelta(delta)).unwrap(),
        bincode::serde::encode_to_vec(same, config).unwrap()
    );
}

#[test]
fn every_message_agrees_with_bincode() {
    let config = bincode::config::standard();
    let id = |n: u128| uuid::Uuid::from_u128(n);
    let bytes = |msg: &ServerMessage| encode(msg).unwrap();
    let add = StrokeOp::Add {
        stroke: Stroke::with_id(0x100, 0x200, Rgba::new(1, 2, 3, 4), scalar(0.5))
            .with_kind(StrokeKind::Rect)
            .with_points(vec![point(1.0, -1.0), point(300.0, 1e-9)]),
        ts: Timestamp::new(70_000, 0x300),
    };
    let remove = StrokeOp::Remove {
        id: 0x400,
        ts: Timestamp::new(3, 0x500),
    };
    let stroke = (
        (id(0x100), id(0x200), [1u8, 2, 3, 4], 0.5f32),
        2u32,
        vec![(1.0f32, -1.0f32), (300.0, 1e-9)],
    );
    let ops = (
        2u8,
        (0u32, stroke.clone(), (70_000u64, id(0x300))),
        (1u32, id(0x400), (3u64, id(0x500))),
    );
    assert_eq!(
        encode(&ClientMessage::Ops(vec![add.clone(), remove.clone()])).unwrap(),
        bincode::serde::encode_to_vec((1u32, ops.clone()), config).unwrap()
    );
    assert_eq!(
        bytes(&ServerMessage::Ops {
            from: 9,
            ops: vec![add.clone(), remove.clone()],
        }),
        bincode::serde::encode_to_vec((2u32, id(9), ops), config).unwrap()
    );

    // A set lists what is known of each stroke.
    let mut set = StrokeSet::new();
    set.apply_all(vec![add, remove]);
    let entries = (
        2u8,
        (id(0x100), (Some(((70_000u64, id(0x300)), stroke)), None::<u8>)),
        (id(0x400), (None::<u8>, Some((3u64, id(0x500))))),
    );
    assert_eq!(
        bytes(&ServerMessage::Snapshot(set.clone())),
        bincode::serde::encode_to_vec((1u32, entries.clone()), config).unwrap()
    );

    let mut cursor = CursorState::new(5, "né".into(), Rgba::new(9, 8, 7, 6));
    let away = (id(5), "né", [9u8, 8, 7, 6], None::<u8>, false);
    assert_eq!(
        bytes(&ServerMessage::Welcome {
            client_id: 1,
            room: "r".into(),
            snapshot: set,
            peers: vec![cursor.clone()],
        }),
        bincode::serde::encode_to_vec((0u32, id(1), "r", entries, vec![away]), config).unwrap()
    );
    assert_eq!(
        bytes(&ServerMessage::PeerJoined(cursor.clone())),
        bincode::serde::encode_to_vec((5u32, away), config).unwrap()
    );
    cursor.position = Some(point(0.0, -0.0));
    cursor.drawing = true;
    let here = (id(5), "né", [9u8, 8, 7, 6], Some((0.0f32, -0.0f32)), true);
    assert_eq!(
        bytes(&ServerMessage::Cursor(cursor.clone())),
        bincode::serde::encode_to_vec((3u32, here), config).unwrap()
    );
    assert_eq!(
        encode(&ClientMessage::Cursor(cursor)).unwrap(),
        bincode::serde::encode_to_vec((2u32, here), config).unwrap()
    );
    assert_eq!(
        bytes(&ServerMessage::PeerLeft(6)),
        bincode::serde::encode_to_vec((6u32, id(6)), config).unwrap()
    );
    assert_eq!(
        bytes(&ServerMessage::Rejected(Rejection::UnsupportedProtocol {
            server: 2,
            client: 999,
        })),
        bincode::serde::encode_to_vec((7u32, 0u32, 2u16, 999u16), config).unwrap()
    );
    assert_eq!(
        bytes(&ServerMessage::Rejected(Rejection::Malformed)),
        bincode::serde::encode_to_vec((7u32, 4u32), config).unwrap()
    );
    assert_eq!(
        bytes(&ServerMessage::Pong(1 << 40)),
        bincode::serde::encode_to_vec((8u32, 1u64 << 40), config).unwrap()
    );
    assert_eq!(encode(&ClientMessage::RequestSnapshot).unwrap(), vec![4]);
}

#[test]
fn every_kind_of_fault_is_refused() {
    let text = |bytes: &[u8]| match decode_client(bytes) {
        Err(CodecError::Decode(text)) => text,
        other => panic!("unexpected {other:?}"),
    };
    assert_eq!(text(&[]), "UnexpectedEnd { additional: 1 }");
    assert_eq!(
        text(&[6]),
        "OtherString(\"invalid value: integer `6`, expected variant index 0 <= i < 6\")"
    );
    assert_eq!(text(&[5, 1, 0, 0]), "2 trailing bytes");
    // A number that is cut short, and one that is too wide.
    assert_eq!(text(&[5, 253, 1]), "UnexpectedEnd { additional: 7 }");
    assert_eq!(text(&[5, 254]), "InvalidIntegerType { expected: U64, found: U128 }");
    assert_eq!(text(&[5, 252, 0]), "UnexpectedEnd { additional: 3 }");
    assert_eq!(text(&[5, 251]), "UnexpectedEnd { additional: 2 }");
    // A protocol version wider than two bytes.
    assert_eq!(
        text(&[0, 252, 1, 0, 0, 0]),
        "InvalidIntegerType { expected: U16, found: U32 }"
    );
    // A variant index wider than four bytes, and a length in no known form.
    assert_eq!(text(&[253]), "InvalidIntegerType { expected: U32, found: U64 }");
    assert_eq!(text(&[1, 255]), "InvalidIntegerType { expected: Usize, found: Reserved }");
    // The same faults with enough bytes behind them.
    let wide = |lead: &[u8]| [lead, &[0u8; 8][..]].concat();
    assert_eq!(
        text(&wide(&[5, 254])),
        "InvalidIntegerType { expected: U32, found: U128 }"
    );
    assert_eq!(
        text(&wide(&[5, 255])),
        "InvalidIntegerType { expected: U32, found: Reserved }"
    );
    assert_eq!(
        text(&wide(&[0, 254])),
        "InvalidIntegerType { expected: U16, found: U128 }"
    );
    assert_eq!(
        text(&wide(&[1, 254])),
        "InvalidIntegerType { expected: Usize, found: U128 }"
    );
    // An identifier of the wrong length, one that is cut short, and one whose
    // length is in no known form.
    assert_eq!(
        text(&[0, 2, 1, 7]),
        "OtherString(\"UUID parsing failed: invalid length: expected 16 bytes, found 1\")"
    );
    assert_eq!(text(&[0, 2, 16, 7]), "UnexpectedEnd { additional: 15 }");
    assert_eq!(
        text(&[0, 2, 255]),
        "InvalidIntegerType { expected: U64, found: Reserved }"
    );
    assert_eq!(
        text(&wide(&[0, 2, 255])),
        "InvalidIntegerType { expected: U32, found: Reserved }"
    );
    // A room name that is no text, and one longer than the frame.
    let mut hello = vec![0u8, 2, 16];
    hello.extend([0u8; 16]);
    let mut broken = hello.clone();
    broken.extend([1, 0xff]);
    assert!(text(&broken).starts_with("Utf8"));
    let mut long = hello;
    long.extend([253, 255, 255, 255, 255, 255, 255, 255, 255]);
    assert_eq!(
        text(&long),
        "UnexpectedEnd { additional: 18446744073709551615 }"
    );
    // A cursor whose option and flag are neither set nor unset.
    let mut cursor = vec![2u8, 16];
    cursor.extend([0u8; 16]);
    cursor.extend([0, 0, 0, 0, 0]);
    let mut option = cursor.clone();
    option.push(2);
    assert_eq!(
        text(&option),
        "UnexpectedVariant { type_name: \"Option<T>\", allowed: Range { min: 0, max: 1 }, found: 2 }"
    );
    let mut flag = cursor.clone();
    flag.extend([0, 2]);
    assert_eq!(text(&flag), "InvalidBooleanValue(2)");
    // A colour and a coordinate that are cut short.
    assert_eq!(text(&cursor[..20]), "UnexpectedEnd { additional: 1 }");
    let mut halved = cursor;
    halved.extend([1, 0, 0]);
    assert_eq!(text(&halved), "UnexpectedEnd { additional: 2 }");
    // A list whose length is not there.
    assert_eq!(text(&[1]), "UnexpectedEnd { additional: 1 }");
}

/// What is said of a number of at most `width` bytes, if it is refused.
fn number_fault(bytes: &[u8], width: usize, expected: &str) -> Option<String> {
    let short = |n: usize| Some(format!("UnexpectedEnd {{ additional: {n} }}"));
    let Some(tag) = bytes.first() else {
        return short(1);
    };
    let (size, name) = match tag {
        251 => (2, "U16"),
        252 => (4, "U32"),
        253 => (8, "U64"),
        254 => (16, "U128"),
        255 => (usize::MAX, "Reserved"),
        _ => return None,
    };
    if size > width {
        return Some(format!(
            "InvalidIntegerType {{ expected: {expected}, found: {name} }}"
        ));
    }
    let have = bytes.len() - 1;
    if have < size {
        short(size - have)
    } else {
        None
    }
}

#[test]
fn numbers_are_refused_in_the_same_words_at_every_length() {
    for tag in [0u8, 250, 251, 252, 253, 254, 255] {
        for len in 0..12 {
            let mut bytes = vec![tag];
            bytes.extend([1u8; 12]);
            bytes.truncate(len);
            let words = |r: Result<(), CodecError>| match r {
                Ok(()) => None,
                Err(CodecError::Decode(text)) if text.ends_with("trailing bytes") => None,
                Err(CodecError::Decode(text)) => Some(text),
                Err(other) => panic!("unexpected {other:?}"),
            };
            let narrow = words(decode::<u16>(&bytes).map(|_| ()));
            assert_eq!(narrow, number_fault(&bytes, 2, "U16"));
            if let Some(fault) = number_fault(&bytes, 4, "U32") {
                let kind = words(decode::<StrokeKind>(&bytes).map(|_| ()));
                assert_eq!(kind, Some(fault));
            }
            if let Some(fault) = number_fault(&bytes, 8, "Usize") {
                let list = words(decode::<Vec<Point>>(&bytes).map(|_| ()));
                assert_eq!(list, Some(fault));
            }
            let named = if len >= 9 { "U32" } else { "U64" };
            let wide = words(decode::<u64>(&bytes).map(|_| ()));
            let fault = number_fault(&bytes, 8, named);
            assert_eq!(wide, fault);
            // The length of an identifier and of a text is such a number.
            if fault.is_some() {
                assert_eq!(words(decode::<u128>(&bytes).map(|_| ())), fault);
                assert_eq!(words(decode::<String>(&bytes).map(|_| ())), fault);
            }
        }
    }
}

#[test]
fn wide_forms_of_small_numbers_are_understood() {
    assert_eq!(
        decode_client(&[5, 253, 7, 0, 0, 0, 0, 0, 0, 0]).unwrap(),
        ClientMessage::Ping(7)
    );
    assert_eq!(
        decode_client(&[251, 4, 0]).unwrap(),
        ClientMessage::RequestSnapshot
    );
}

#[test]
fn every_rejection_and_kind_comes_back() {
    for why in [
        Rejection::UnsupportedProtocol {
            server: 2,
            client: 65535,
        },
        Rejection::NotJoined,
        Rejection::RoomFull,
        Rejection::InvalidRoom,
        Rejection::Malformed,
    ] {
        let msg = ServerMessage::Rejected(why);
        assert_eq!(decode_server(&encode(&msg).unwrap()).unwrap(), msg);
    }
    for kind in [
        StrokeKind::Freehand,
        StrokeKind::Line,
        StrokeKind::Rect,
        StrokeKind::Ellipse,
        StrokeKind::Text {
            content: "a\nb".into(),
            size: scalar(12.0),
        },
    ] {
        let back: StrokeKind = decode(&encode(&kind).unwrap()).unwrap();
        assert_eq!(back, kind);
    }
}

#[test]
fn errors_explain_themselves() {
    assert_eq!(
        CodecError::Decode("why".into()).describe(),
        "decode failed: why"
    );
    assert_eq!(
        CodecError::Encode("why".into()).describe(),
        "encode failed: why"
    );
    assert_eq!(
        CodecError::FrameType { expected: "binary" }.describe(),
        "unexpected frame type (expected binary)"
    );
    assert_eq!(wire_format(), "bincode");
    assert!(!is_text_wire());
}
