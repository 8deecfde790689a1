//! The client: connection, command line, editing, presence and rendering plans.

use std::hash::{DefaultHasher, Hash, Hasher};

use weavedraw::app::WeavedrawApp;
use weavedraw::args::{choose_args, configure, parse_args, usage, ArgError, Vars};
use weavedraw::board::Pointer;
use weavedraw::codec::{decode_client, encode};
use weavedraw::crdt::{StrokeOp, StrokeSet, Timestamp};
use weavedraw::document::{Document, History, MAX_HISTORY};
use weavedraw::gpu::{
    chunk_extent, chunk_key, gpu_strokes, needs_sync, plan_sync, shader_header,
};
use weavedraw::net::{backoff_ms, stash_offline, Link, NetConfig, NetEvent, Step};
use weavedraw::palette::{palette, presence_color};
use weavedraw::panel::{cursor_label, gpu_detail, window_title};
use weavedraw::protocol::{ClientMessage, Rejection, ServerMessage, StrokeDelta};
use weavedraw::text::is_blank;
use weavedraw::tool::{Command, KeyName, Keys, Press, Route, Tool};
use weavedraw::types::{ClientId, CursorState, Point, Rgba, Scalar, Stroke, StrokeKind};
use weavedraw::ws::Incoming;

const ME: ClientId = 0x10;
const PEER: ClientId = 0x20;

fn scalar(x: f32) -> Scalar {
    Scalar::from_bits(x.to_bits())
}

fn float(s: Scalar) -> f32 {
    f32::from_bits(s.bits)
}

fn point(x: f32, y: f32) -> Point {
    Point::new(scalar(x), scalar(y))
}

fn config() -> NetConfig {
    NetConfig {
        url: "ws://127.0.0.1:8080/ws".into(),
        room: "lobby".into(),
        name: "ann".into(),
        color: Rgba::rgb(1, 2, 3),
        client_id: ME,
    }
}

fn stroke(id: u128, client: ClientId) -> Stroke {
    Stroke::with_id(id, client, Rgba::white(), scalar(2.0))
        .with_points(vec![point(0.0, 0.0), point(4.0, 0.0)])
}

fn add(id: u128, client: ClientId, counter: u64) -> StrokeOp {
    StrokeOp::Add {
        stroke: stroke(id, client),
        ts: Timestamp::new(counter, client),
    }
}

fn remove(id: u128, client: ClientId, counter: u64) -> StrokeOp {
    StrokeOp::Remove {
        id,
        ts: Timestamp::new(counter, client),
    }
}

// ---- identity ---------------------------------------------------------------

#[test]
fn presence_color_is_stable_and_in_palette() {
    let id = uuid::Uuid::new_v4().as_u128();
    let c = presence_color(id);
    assert_eq!(c, presence_color(id));
    let palette = palette();
    assert!(palette[1..palette.len() - 1].contains(&c));
}

#[test]
fn presence_colors_follow_the_bytes_of_the_id() {
    // Thirty-one to the fifteenth, plus two, is one more than a multiple of
    // eight.
    let id = (1u128 << 120) + 2;
    let h = id
        .to_be_bytes()
        .iter()
        .fold(0u32, |h, b| h.wrapping_mul(31).wrapping_add(*b as u32));
    assert_eq!(h % 8, 1);
    assert_eq!(presence_color(id), palette()[2]);
    assert_eq!(presence_color(0), palette()[1]);
    assert_eq!(presence_color(7), palette()[8]);
}

// ---- command line -----------------------------------------------------------

fn vars(server: Option<&str>, room: Option<&str>, name: Option<&str>, user: Option<&str>) -> Vars {
    Vars {
        server: server.map(str::to_owned),
        room: room.map(str::to_owned),
        name: name.map(str::to_owned),
        user: user.map(str::to_owned),
    }
}

fn words(args: &[&str]) -> Vec<String> {
    args.iter().map(|a| a.to_string()).collect()
}

#[test]
fn arguments_win_over_the_environment() {
    let none = vars(None, None, None, None);
    let plain = choose_args(&none, &words(&[])).unwrap().unwrap();
    assert_eq!(
        (plain.url.as_str(), plain.room.as_str(), plain.name),
        ("ws://127.0.0.1:8080/ws", "lobby", None)
    );
    let set = vars(Some("ws://a/ws"), Some("r"), Some("n"), Some("u"));
    let from_env = choose_args(&set, &words(&[])).unwrap().unwrap();
    assert_eq!(
        (from_env.url.as_str(), from_env.room.as_str(), from_env.name.as_deref()),
        ("ws://a/ws", "r", Some("n"))
    );
    let given = choose_args(&set, &words(&["x", "--server", "ws://b/ws", "--name", "m", "y"]))
        .unwrap()
        .unwrap();
    assert_eq!(
        (given.url.as_str(), given.room.as_str(), given.name.as_deref()),
        ("ws://b/ws", "y", Some("m"))
    );
}

#[test]
fn bad_arguments_are_explained() {
    let none = vars(None, None, None, None);
    let fault = |args: &[&str]| match choose_args(&none, &words(args)) {
        Err(e) => e.describe(),
        Ok(_) => panic!("accepted"),
    };
    assert_eq!(fault(&["--server"]), "--server needs a URL");
    assert_eq!(fault(&["a", "--name"]), "--name needs a value");
    assert_eq!(fault(&["--wat"]), "unknown flag --wat");
    assert!(matches!(
        choose_args(&none, &words(&["-x"])),
        Err(ArgError::UnknownFlag(f)) if f == "-x"
    ));
    assert!(matches!(choose_args(&none, &words(&["--help", "--wat"])), Ok(None)));
    assert!(matches!(parse_args(&none, &words(&["a", "-h"])), Ok(None)));
    assert!(usage().starts_with("usage: weavedraw"));
}

#[test]
fn names_fall_back_to_the_user_and_to_a_guest() {
    let named = |name: Option<&str>, user: Option<&str>| {
        let vars = vars(None, None, name, user);
        let choice = choose_args(&vars, &words(&[])).unwrap().unwrap();
        configure(choice, &vars, 0xABCD_0123 << 96).name
    };
    assert_eq!(named(Some("n"), Some("u")), "n");
    assert_eq!(named(None, Some("u")), "u");
    assert_eq!(named(None, None), "guest-abcd");
    assert_eq!(named(Some(" \u{3000}\t"), Some("u")), "guest-abcd");
    let fresh = parse_args(&vars(None, None, None, None), &words(&["r"]))
        .unwrap()
        .unwrap();
    assert_eq!(fresh.color, presence_color(fresh.client_id));
    let hex = uuid::Uuid::from_u128(fresh.client_id).simple().to_string();
    assert_eq!(fresh.name, format!("guest-{}", &hex[..4]));
}

// ---- connection -------------------------------------------------------------

fn sent(step: &Step) -> Option<ClientMessage> {
    step.send.as_ref().map(|b| decode_client(b).unwrap())
}

fn from_server(msg: &ServerMessage) -> Incoming {
    Incoming::Data(encode(msg).unwrap())
}

fn welcome() -> ServerMessage {
    ServerMessage::Welcome {
        client_id: ME,
        room: "lobby".into(),
        snapshot: StrokeSet::new(),
        peers: vec![],
    }
}

#[test]
fn waits_double_up_to_ten_seconds() {
    let waits: Vec<u64> = (0..8).map(backoff_ms).collect();
    assert_eq!(waits, vec![500, 1000, 2000, 4000, 8000, 10000, 10000, 10000]);
    assert_eq!(backoff_ms(u32::MAX), 10000);
}

#[test]
fn operations_made_offline_are_replayed_in_order_after_the_welcome() {
    let mut link = Link::new();
    assert!(matches!(link.connecting(), NetEvent::Connecting { attempt: 1 }));
    link.submit_offline(ClientMessage::Ops(vec![add(1, ME, 1)]));
    link.submit_offline(ClientMessage::Ping(3));
    let (event, wait) = link.disconnected("no route".into());
    assert!(matches!(event, NetEvent::Disconnected { reason } if reason == "no route"));
    assert_eq!(wait, 1000);
    link.submit_offline(ClientMessage::Ops(vec![remove(1, ME, 2), add(2, ME, 3)]));

    assert!(matches!(link.connecting(), NetEvent::Connecting { attempt: 2 }));
    let step = link.connected(&config());
    assert_eq!(link.attempt(), 0);
    assert!(matches!(step.emit, Some(NetEvent::Connected)));
    assert!(matches!(
        sent(&step),
        Some(ClientMessage::Hello { client_id: ME, room, .. }) if room == "lobby"
    ));
    // Operations wait for the welcome; everything else goes out on the socket.
    assert!(link.submit(ClientMessage::Ops(vec![add(3, ME, 4)])).send.is_none());
    assert_eq!(
        sent(&link.submit(ClientMessage::RequestSnapshot)),
        Some(ClientMessage::RequestSnapshot)
    );

    let step = link.receive(from_server(&welcome()), 0);
    assert!(matches!(
        step.emit,
        Some(NetEvent::Message(ServerMessage::Welcome { .. }))
    ));
    assert_eq!(
        sent(&step),
        Some(ClientMessage::Ops(vec![
            add(1, ME, 1),
            remove(1, ME, 2),
            add(2, ME, 3),
            add(3, ME, 4)
        ]))
    );
    // Nothing is sent twice, and from here on messages go straight out.
    assert!(link.receive(from_server(&welcome()), 0).send.is_none());
    assert_eq!(
        sent(&link.submit(ClientMessage::RequestSnapshot)),
        Some(ClientMessage::RequestSnapshot)
    );
}

#[test]
fn a_refused_session_keeps_what_is_queued() {
    let mut link = Link::new();
    link.submit_offline(ClientMessage::Ops(vec![add(1, ME, 1)]));
    link.connected(&config());
    let no = ServerMessage::Rejected(Rejection::RoomFull);
    let step = link.receive(from_server(&no), 0);
    assert!(step.send.is_none() && !step.done);
    assert!(link.receive(Incoming::Close, 0).done);
    link.disconnected("server closed the connection".into());
    link.connected(&config());
    let step = link.receive(from_server(&welcome()), 0);
    assert_eq!(sent(&step), Some(ClientMessage::Ops(vec![add(1, ME, 1)])));
}

#[test]
fn round_trips_are_timed_by_the_keepalive() {
    let mut link = Link::new();
    link.connected(&config());
    let now = (7u128 << 64) + 1_000;
    let step = link.probe(now);
    assert_eq!(sent(&step), Some(ClientMessage::Ping(1_000)));
    let pong = |n: u64| from_server(&ServerMessage::Pong(n));
    assert!(matches!(link.receive(pong(1_000), now + 25).emit, Some(NetEvent::Rtt(25))));
    assert!(link.receive(pong(1_000), now + 30).emit.is_none(), "answered once");
    link.probe(now);
    assert!(link.receive(pong(999), now + 1).emit.is_none(), "not the one in flight");
    assert!(link.receive(Incoming::Control, now).emit.is_none());
    assert!(link.receive(Incoming::Data(vec![0xff]), now).emit.is_none());
}

#[test]
fn only_operations_are_stashed() {
    let mut outbox = vec![add(1, ME, 1)];
    stash_offline(ClientMessage::Ping(1), &mut outbox);
    stash_offline(ClientMessage::Ops(vec![remove(1, ME, 2)]), &mut outbox);
    assert_eq!(outbox, vec![add(1, ME, 1), remove(1, ME, 2)]);
}

// ---- document and history ---------------------------------------------------

#[test]
fn the_generation_moves_with_visible_changes_only() {
    let mut doc = Document::new();
    let start = doc.generation();
    assert!(!doc.apply(remove(9, ME, 1)));
    assert_eq!(doc.generation(), start);
    assert!(doc.apply(add(1, ME, 1)));
    assert_eq!(doc.generation(), start + 1);
    assert_eq!(doc.apply_all(vec![add(2, ME, 2), add(2, ME, 2)]), 1);
    assert_eq!(doc.generation(), start + 2);
    let mut other = StrokeSet::new();
    other.apply(add(3, PEER, 5));
    assert_eq!(doc.merge(other.clone()), 1);
    let merged = doc.generation();
    assert!(merged > start + 2);
    assert_eq!(doc.merge(other), 0);
    assert_eq!(doc.generation(), merged);
    assert_eq!(doc.strokes().len(), 3);
}

#[test]
fn history_forgets_its_oldest_entries() {
    let mut history = History::new();
    for n in 0..MAX_HISTORY as u64 + 5 {
        history.record(vec![add(n as u128, ME, n)]);
    }
    let mut left = 0;
    let mut oldest = None;
    while let Some(group) = history.pop_undo() {
        left += 1;
        oldest = Some(group);
    }
    assert_eq!(left, MAX_HISTORY);
    assert_eq!(oldest, Some(vec![add(5, ME, 5)]));
    history.push_redo(vec![remove(1, ME, 1)]);
    assert!(history.can_redo() && !history.can_undo());
    history.record(vec![add(1, ME, 1)]);
    assert!(!history.can_redo(), "a new gesture forgets what was undone");
}

// ---- editing ----------------------------------------------------------------

fn app() -> WeavedrawApp {
    WeavedrawApp::new(config(), 0)
}

fn idle() -> Pointer {
    Pointer {
        started: false,
        clicked: false,
        dragging: false,
        moving: false,
        stopped: false,
        at: None,
    }
}

fn press(at: Point) -> Pointer {
    Pointer {
        started: true,
        dragging: true,
        moving: true,
        at: Some(at),
        ..idle()
    }
}

fn drag(at: Point) -> Pointer {
    Pointer {
        dragging: true,
        moving: true,
        at: Some(at),
        ..idle()
    }
}

fn release(at: Point) -> Pointer {
    Pointer {
        stopped: true,
        at: Some(at),
        ..idle()
    }
}

/// Samples a unit apart are far enough.
fn far(a: Point, b: Point) -> bool {
    (float(a.x) - float(b.x)).abs() + (float(a.y) - float(b.y)).abs() >= 1.0
}

/// Height above the x axis stands for the distance from the line.
fn height(p: Point, _: Point, _: Point) -> Scalar {
    scalar(float(p.y).abs())
}

fn draw(app: &mut WeavedrawApp, id: u128, path: &[Point]) {
    app.draw(id, press(path[0]), &far, scalar(0.1), height);
    for p in &path[1..] {
        app.draw(0, drag(*p), &far, scalar(0.1), height);
    }
    let last = path[path.len() - 1];
    app.draw(0, release(last), &far, scalar(0.1), height);
}

fn visible(app: &WeavedrawApp) -> Vec<u128> {
    app.document().strokes().draw_order()
}

#[test]
fn a_stroke_is_streamed_while_drawn_and_committed_when_done() {
    let mut app = app();
    app.draw(5, press(point(0.0, 0.0)), &far, scalar(0.1), height);
    app.draw(0, drag(point(0.5, 0.0)), &far, scalar(0.1), height);
    app.draw(0, drag(point(2.0, 0.0)), &far, scalar(0.1), height);
    assert!(app.is_busy());
    app.draw(0, drag(point(4.0, 0.0)), &far, scalar(0.1), height);
    app.draw(0, release(point(4.0, 0.0)), &far, scalar(0.1), height);
    assert!(!app.is_busy());
    let chunk = |points: Vec<Point>| {
        ClientMessage::StrokeDelta(StrokeDelta {
            stroke_id: 5,
            client_id: ME,
            color: palette()[6],
            width: scalar(4.0),
            kind: StrokeKind::Freehand,
            points,
        })
    };
    let committed = Stroke::with_id(5, ME, palette()[6], scalar(4.0))
        .with_points(vec![point(0.0, 0.0), point(4.0, 0.0)]);
    assert_eq!(
        app.take_outgoing(),
        vec![
            chunk(vec![point(0.0, 0.0)]),
            chunk(vec![point(2.0, 0.0)]),
            chunk(vec![point(4.0, 0.0)]),
            ClientMessage::Ops(vec![StrokeOp::Add {
                stroke: committed,
                ts: Timestamp::new(1, ME)
            }]),
        ]
    );
    assert!(app.take_outgoing().is_empty());
    assert_eq!(visible(&app), vec![5]);
}

#[test]
fn shapes_keep_two_corners_and_are_streamed_whole() {
    let mut app = app();
    app.select_tool(Tool::Rect);
    draw(&mut app, 1, &[point(0.0, 0.0), point(3.0, 3.0), point(3.0, 3.0), point(5.0, 4.0)]);
    let out = app.take_outgoing();
    let points: Vec<usize> = out
        .iter()
        .filter_map(|m| match m {
            ClientMessage::StrokeDelta(d) => Some(d.points.len()),
            _ => None,
        })
        .collect();
    assert_eq!(points, vec![2, 2, 2]);
    let drawn = app.document().strokes().get(1).expect("committed");
    assert_eq!(drawn.kind, StrokeKind::Rect);
    assert_eq!(drawn.points, vec![point(0.0, 0.0), point(5.0, 4.0)]);
}

#[test]
fn undo_and_redo_go_back_and_forth() {
    let mut app = app();
    draw(&mut app, 1, &[point(0.0, 0.0), point(4.0, 0.0)]);
    draw(&mut app, 2, &[point(0.0, 0.0), point(4.0, 0.0)]);
    app.take_outgoing();
    assert!(app.can_undo() && !app.can_redo());
    app.perform(Command::Undo);
    assert_eq!(visible(&app), vec![1]);
    assert_eq!(
        app.take_outgoing(),
        vec![ClientMessage::Ops(vec![remove(2, ME, 3)])]
    );
    app.perform(Command::Redo);
    assert_eq!(visible(&app), vec![1, 2]);
    app.perform(Command::Undo);
    app.perform(Command::Undo);
    assert!(visible(&app).is_empty() && !app.can_undo());
    assert!(app.can_perform(Command::Undo));
    app.perform(Command::Undo);
    app.perform(Command::Redo);
    draw(&mut app, 3, &[point(0.0, 0.0), point(4.0, 0.0)]);
    assert!(!app.can_redo(), "a new gesture forgets what was undone");
    assert_eq!(visible(&app), vec![1, 3]);
}

#[test]
fn clearing_takes_own_strokes_and_can_be_undone() {
    let mut app = app();
    draw(&mut app, 1, &[point(0.0, 0.0), point(4.0, 0.0)]);
    app.handle_server(ServerMessage::Ops {
        from: PEER,
        ops: vec![add(2, PEER, 9)],
    });
    draw(&mut app, 3, &[point(0.0, 0.0), point(4.0, 0.0)]);
    app.take_outgoing();
    app.perform(Command::Clear);
    assert_eq!(visible(&app), vec![2]);
    assert_eq!(
        app.take_outgoing(),
        vec![ClientMessage::Ops(vec![remove(1, ME, 11), remove(3, ME, 12)])],
        "own strokes sort after the history seen"
    );
    app.perform(Command::Undo);
    assert_eq!(visible(&app), vec![2, 3, 1]);
}

#[test]
fn an_eraser_drag_is_undone_as_one() {
    let mut app = app();
    for id in 1..=3 {
        draw(&mut app, id, &[point(0.0, 0.0), point(4.0, 0.0)]);
    }
    app.select_tool(Tool::Eraser);
    app.take_outgoing();
    // Everything is under the eraser: the topmost goes first.
    app.eraser_input(press(point(1.0, 0.0)), &|_: &Stroke| true);
    assert_eq!(visible(&app), vec![1, 2]);
    app.eraser_input(drag(point(1.0, 0.0)), &|s: &Stroke| s.id == 1);
    assert_eq!(visible(&app), vec![2]);
    app.eraser_input(drag(point(1.0, 0.0)), &|_: &Stroke| false);
    app.eraser_input(release(point(1.0, 0.0)), &|_: &Stroke| true);
    assert_eq!(visible(&app), vec![2], "a release takes nothing");
    assert_eq!(
        app.take_outgoing(),
        vec![
            ClientMessage::Ops(vec![remove(3, ME, 4)]),
            ClientMessage::Ops(vec![remove(1, ME, 5)])
        ]
    );
    app.perform(Command::Undo);
    assert_eq!(visible(&app), vec![2, 1, 3]);
    // A click alone is a drag of its own.
    let click = Pointer {
        clicked: true,
        at: Some(point(0.0, 0.0)),
        ..idle()
    };
    app.eraser_input(click, &|_: &Stroke| true);
    assert_eq!(visible(&app), vec![2, 1]);
    app.perform(Command::Undo);
    assert_eq!(visible(&app), vec![2, 1, 3]);
}

#[test]
fn changing_the_tool_drops_the_gesture_but_not_what_was_erased() {
    let mut app = app();
    draw(&mut app, 1, &[point(0.0, 0.0), point(4.0, 0.0)]);
    app.draw(2, press(point(0.0, 0.0)), &far, scalar(0.1), height);
    app.perform(Command::Select(Tool::Eraser));
    assert!(app.drawing().is_none());
    app.eraser_input(press(point(0.0, 0.0)), &|_: &Stroke| true);
    app.perform(Command::Select(Tool::Pen));
    assert!(visible(&app).is_empty() && app.can_undo());
    app.perform(Command::Undo);
    assert_eq!(visible(&app), vec![1]);
}

#[test]
fn the_key_of_the_tool_in_use_keeps_the_gesture() {
    let mut app = app();
    app.draw(2, press(point(0.0, 0.0)), &far, scalar(0.1), height);
    app.perform(Command::Select(Tool::Pen));
    assert!(app.drawing().is_some(), "nothing was selected anew");
    app.draw(2, drag(point(4.0, 0.0)), &far, scalar(0.1), height);
    app.draw(2, release(point(4.0, 0.0)), &far, scalar(0.1), height);
    assert_eq!(visible(&app), vec![2]);
    // The toolbar starts afresh even with the tool in use.
    app.draw(3, press(point(0.0, 0.0)), &far, scalar(0.1), height);
    app.select_tool(Tool::Pen);
    assert!(app.drawing().is_none());
}

#[test]
fn a_whole_gesture_is_restored_after_it_was_undone() {
    let mut app = app();
    for id in 1..=3 {
        draw(&mut app, id, &[point(0.0, 0.0), point(4.0, 0.0)]);
    }
    app.perform(Command::Clear);
    assert!(visible(&app).is_empty());
    app.take_outgoing();
    app.perform(Command::Undo);
    assert_eq!(visible(&app), vec![3, 2, 1]);
    app.perform(Command::Redo);
    assert!(visible(&app).is_empty());
    let stamps: Vec<u64> = app
        .take_outgoing()
        .iter()
        .flat_map(|m| match m {
            ClientMessage::Ops(ops) => ops.iter().map(|op| op.timestamp().counter).collect(),
            _ => Vec::new(),
        })
        .collect();
    assert_eq!(stamps, (7..=12).collect::<Vec<u64>>());
    assert!(app.can_undo() && !app.can_redo());
    app.perform(Command::Undo);
    app.perform(Command::Undo);
    app.perform(Command::Redo);
    assert_eq!(visible(&app).len(), 3, "the strokes themselves come back the same way");
}

#[test]
fn chunks_reach_over_all_their_strokes() {
    assert_eq!(chunk_extent(&Vec::new()), None);
    let boxes = vec![
        (point(1.0, 5.0), point(2.0, 6.0)),
        (point(-3.0, 7.0), point(0.5, 9.0)),
        (point(0.0, 0.0), point(8.0, 1.0)),
    ];
    assert_eq!(
        chunk_extent(&boxes),
        Some((point(1.0, 5.0), (point(-3.0, 0.0), point(8.0, 9.0))))
    );
}

#[test]
fn white_space_alone_is_no_name() {
    assert!(is_blank(""));
    assert!(is_blank(" \t\r\n\u{b}\u{c}\u{85}\u{a0}\u{1680}\u{2000}\u{200a}\u{3000}"));
    assert!(is_blank("\u{2028}\u{2029}\u{202f}\u{205f}"));
    for text in ["ann", " a ", "\u{200b}", "\u{180e}", "\u{1f}", "\u{feff}", "_"] {
        assert!(!is_blank(text), "{text:?}");
    }
    // The property covers these characters and no others.
    let all = (0..=0x10_ffffu32).filter_map(char::from_u32);
    assert_eq!(all.filter(|c| is_blank(&c.to_string())).count(), 25);
}

#[test]
fn fresh_sessions_get_a_random_id() {
    let config = match parse_args(&vars(None, None, Some("ann"), None), &words(&[])) {
        Ok(Some(config)) => config,
        other => panic!("unexpected {other:?}"),
    };
    let id = uuid::Uuid::from_u128(config.client_id);
    assert_eq!(id.get_version_num(), 4);
    assert_eq!(id.get_variant(), uuid::Variant::RFC4122);
}

#[test]
fn remote_operations_move_the_clock_and_end_previews() {
    let mut app = app();
    for id in [1, 2] {
        app.apply_delta(StrokeDelta {
            stroke_id: id,
            client_id: PEER,
            color: Rgba::white(),
            width: scalar(1.0),
            kind: StrokeKind::Freehand,
            points: vec![point(0.0, 0.0)],
        });
    }
    draw(&mut app, 7, &[point(0.0, 0.0), point(4.0, 0.0)]);
    app.handle_server(ServerMessage::Ops {
        from: PEER,
        ops: vec![add(1, PEER, 9), remove(2, PEER, 30), add(3, PEER, 12)],
    });
    let shown: Vec<u128> = app.previews().iter().map(|s| s.id).collect();
    assert_eq!(shown, vec![2], "only what was added ends its preview");
    assert_eq!(visible(&app), vec![7, 1, 3]);
    assert!(app.can_undo());
    app.take_outgoing();
    app.perform(Command::Undo);
    assert_eq!(
        app.take_outgoing(),
        vec![ClientMessage::Ops(vec![remove(7, ME, 31)])],
        "the clock went on from the greatest counter heard"
    );
}

#[test]
fn labels_are_typed_streamed_and_committed() {
    let mut app = app();
    app.select_tool(Tool::Text);
    app.place_label(7, point(1.0, 2.0));
    app.edit_label("h");
    app.edit_label("h");
    app.edit_label("hi");
    let texts: Vec<StrokeKind> = app
        .take_outgoing()
        .into_iter()
        .map(|m| match m {
            ClientMessage::StrokeDelta(d) => d.kind,
            other => panic!("unexpected {other:?}"),
        })
        .collect();
    let label = |text: &str| StrokeKind::Text {
        content: text.into(),
        size: scalar(24.0),
    };
    assert_eq!(texts, vec![label("h"), label("hi")]);
    // Clicking elsewhere commits it and starts another.
    app.text_click(point(5.0, 5.0));
    assert_eq!(visible(&app), vec![7]);
    assert_eq!(
        app.document().strokes().get(7).and_then(|s| s.text().map(|t| t.0.to_owned())),
        Some("hi".to_owned())
    );
    // One of nothing but white space goes nowhere.
    app.edit_label(" \n");
    app.commit_label();
    assert_eq!(visible(&app), vec![7]);
    assert!(app.drawing().is_none());
}

#[test]
fn remote_strokes_are_previewed_until_they_are_committed() {
    let mut app = app();
    let chunk = |id: u128, client: ClientId, x: f32| {
        ServerMessage::StrokeDelta(StrokeDelta {
            stroke_id: id,
            client_id: client,
            color: Rgba::white(),
            width: scalar(1.0),
            kind: StrokeKind::Freehand,
            points: vec![point(x, 0.0)],
        })
    };
    app.handle_server(chunk(1, PEER, 0.0));
    app.handle_server(chunk(1, PEER, 1.0));
    app.handle_server(chunk(2, PEER, 0.0));
    app.handle_server(chunk(3, ME, 0.0));
    assert_eq!(app.previews().len(), 2, "own chunks are not previewed");
    assert_eq!(app.previews()[0].points.len(), 2);
    app.handle_server(ServerMessage::Ops {
        from: PEER,
        ops: vec![add(1, PEER, 4)],
    });
    assert_eq!(app.previews().len(), 1);
    assert_eq!(visible(&app), vec![1]);
    app.handle_server(chunk(1, PEER, 2.0));
    assert_eq!(app.previews().len(), 1, "late chunks of a committed stroke");
    app.handle_server(ServerMessage::PeerLeft(PEER));
    assert!(app.previews().is_empty());
}

#[test]
fn the_welcome_brings_document_and_peers() {
    let mut app = app();
    let mut snapshot = StrokeSet::new();
    snapshot.apply(add(1, PEER, 6));
    let mut busy = CursorState::new(PEER, "bob".into(), Rgba::black());
    busy.drawing = true;
    app.handle_net(NetEvent::Connected);
    assert_eq!(app.status_bar().text, "joining…");
    app.handle_net(NetEvent::Message(ServerMessage::Welcome {
        client_id: ME,
        room: "lobby".into(),
        snapshot,
        peers: vec![busy, CursorState::new(0x30, "al".into(), Rgba::white())],
    }));
    assert_eq!(visible(&app), vec![1]);
    let rows: Vec<(String, bool, bool)> = app
        .peer_list()
        .into_iter()
        .map(|r| (r.name, r.drawing, r.me))
        .collect();
    assert_eq!(
        rows,
        vec![
            ("ann (you)".to_owned(), false, true),
            ("al".to_owned(), false, false),
            ("bob".to_owned(), true, false)
        ]
    );
    assert_eq!(app.cursors().len(), 2);
    app.handle_server(ServerMessage::PeerLeft(PEER));
    assert_eq!(app.cursors().len(), 1);
    let status = app.status_bar();
    assert_eq!(
        (status.text.as_str(), status.room.as_str(), status.strokes.as_str(), status.rtt),
        ("online", "room lobby", "1 strokes", None)
    );
    // The next stroke sorts after everything seen.
    draw(&mut app, 2, &[point(0.0, 0.0), point(4.0, 0.0)]);
    assert_eq!(app.document().strokes().latest_timestamp(), Some(Timestamp::new(7, ME)));
}

#[test]
fn the_status_bar_tells_of_the_connection() {
    let mut app = app();
    assert_eq!(app.status_bar().text, "connecting…");
    app.handle_net(NetEvent::Connecting { attempt: 12 });
    assert_eq!(app.status_bar().text, "reconnecting (#12)…");
    app.handle_net(NetEvent::Rtt(12_345_678));
    assert_eq!(app.status_bar().rtt.as_deref(), Some("12 ms"));
    app.handle_net(NetEvent::Disconnected {
        reason: "gone".into(),
    });
    let status = app.status_bar();
    assert_eq!(status.text, "offline — gone");
    assert_eq!(status.dot, Rgba::from_hex(0xf38ba8));
    assert!(status.rtt.is_none());
    app.handle_server(ServerMessage::Rejected(Rejection::RoomFull));
    assert!(app.status_bar().text.contains("room is full"));
}

#[test]
fn cursors_are_announced_when_they_moved_and_not_too_often() {
    let mut app = app();
    let here = Some(point(1.0, 1.0));
    app.send_cursor(here, 1_000);
    assert!(app.take_outgoing().is_empty(), "nobody is listening");
    app.handle_net(NetEvent::Message(welcome()));
    app.take_outgoing();
    app.send_cursor(here, 1_000);
    assert_eq!(app.take_outgoing().len(), 1);
    app.send_cursor(here, 2_000);
    assert!(app.take_outgoing().is_empty(), "it did not move");
    app.send_cursor(Some(point(2.0, 1.0)), 1_032);
    assert!(app.take_outgoing().is_empty(), "too soon");
    app.send_cursor(Some(point(2.0, 1.0)), 1_033);
    assert_eq!(app.take_outgoing().len(), 1);
    app.send_cursor(None, 1_034);
    assert_eq!(app.take_outgoing().len(), 1, "leaving is told at once");
    app.send_cursor(None, 5_000);
    assert!(app.take_outgoing().is_empty());
}

/// A key with Ctrl (`c`) and Shift (`s`) held or not; `m` is the control key of
/// a keyboard that has a command key of its own.
fn key(key: KeyName, held: &str) -> Press {
    Press {
        key,
        command: held.contains('c'),
        ctrl: held.contains('c') || held.contains('m'),
        shift: held.contains('s'),
    }
}

#[test]
fn combinations_tell_commands_apart() {
    let asks = |name: KeyName, held: &str| key(name, held).meaning();
    assert_eq!(asks(KeyName::Z, "c"), Some(Command::Undo));
    assert_eq!(asks(KeyName::Z, "cs"), Some(Command::Redo));
    assert_eq!(asks(KeyName::Y, "c"), Some(Command::Redo));
    assert_eq!(asks(KeyName::Y, "cs"), Some(Command::Redo));
    assert_eq!(asks(KeyName::Backspace, "cs"), Some(Command::Clear));
    assert_eq!(asks(KeyName::Num0, ""), Some(Command::ResetView));
    assert_eq!(asks(KeyName::Num0, "c"), Some(Command::ResetView));
    assert_eq!(asks(KeyName::E, "s"), Some(Command::Select(Tool::Eraser)));
    assert_eq!(asks(KeyName::OpenBracket, ""), Some(Command::Narrower));
    assert_eq!(asks(KeyName::CloseBracket, ""), Some(Command::Wider));
    for (name, held) in [
        (KeyName::Z, ""),
        (KeyName::Z, "s"),
        (KeyName::Z, "m"),
        (KeyName::Y, "s"),
        (KeyName::Backspace, ""),
        (KeyName::Backspace, "c"),
        (KeyName::Num0, "m"),
        (KeyName::P, "c"),
        (KeyName::P, "m"),
        (KeyName::CloseBracket, "c"),
    ] {
        assert_eq!(asks(name, held), None, "{name:?} {held}");
    }
    // Redo alone: the longer combination is not taken for the shorter one.
    let keys = Keys {
        owned: false,
        space: false,
        presses: vec![key(KeyName::Z, "cs")],
    };
    assert_eq!(app().handle_shortcuts(&keys), vec![Command::Redo]);
}

#[test]
fn keys_ask_for_commands_in_order() {
    let keys = Keys {
        owned: false,
        space: true,
        presses: vec![
            key(KeyName::CloseBracket, ""),
            key(KeyName::OpenBracket, ""),
            key(KeyName::Num0, ""),
            key(KeyName::R, ""),
            key(KeyName::P, ""),
            key(KeyName::Backspace, "cs"),
            key(KeyName::Z, "cs"),
            key(KeyName::Z, "c"),
            key(KeyName::Z, "c"),
        ],
    };
    let mut app = app();
    assert_eq!(
        app.handle_shortcuts(&keys),
        vec![
            Command::Undo,
            Command::Redo,
            Command::Clear,
            Command::Select(Tool::Rect),
            Command::Wider,
            Command::ResetView
        ]
    );
    assert!(app.space_held());
    assert_eq!(app.canvas_input(false, true), Route::Pan);
    assert_eq!(app.canvas_input(false, false), Route::Hold);
    let owned = Keys { owned: true, ..keys };
    assert!(app.handle_shortcuts(&owned).is_empty());
    assert!(!app.space_held(), "the text field has the keyboard");
    assert_eq!(app.canvas_input(true, false), Route::Pan);
    assert_eq!(app.canvas_input(false, true), Route::Draw);
    app.select_tool(Tool::Eraser);
    assert_eq!(app.canvas_input(false, true), Route::Erase);
    app.select_tool(Tool::Text);
    assert_eq!(app.canvas_input(false, true), Route::Label);
}

#[test]
fn every_tool_has_a_key_and_a_kind() {
    let keys: Vec<&str> = Tool::all().iter().map(|t| t.hotkey()).collect();
    assert_eq!(keys, vec!["P", "L", "R", "O", "T", "E", "H"]);
    assert_eq!(Tool::Ellipse.kind(), StrokeKind::Ellipse);
    assert_eq!(Tool::Line.label(), "╱ Line");
    assert_eq!(window_title("lobby"), "Weavedraw — lobby");
    let mut cursor = CursorState::new(1, "bob".into(), Rgba::black());
    assert_eq!(cursor_label(&cursor), "bob");
    cursor.drawing = true;
    assert_eq!(cursor_label(&cursor), "bob ✏");
    assert_eq!(
        gpu_detail(3, 120, 0),
        "GPU: 3 chunks, 120 cached meshes, 0 tessellated this frame"
    );
    let mut app = app();
    app.set_brush_color(Rgba::black());
    app.set_brush_width(scalar(9.0));
    app.set_text_size(scalar(30.0));
    assert_eq!(
        (app.brush_color(), app.brush_width(), app.text_size(), app.tool()),
        (Rgba::black(), scalar(9.0), scalar(30.0), Tool::Pen)
    );
    assert!(app.can_draw());
}

#[test]
fn a_peer_that_comes_back_and_the_room_end_up_the_same() {
    let mut room = StrokeSet::new();
    room.apply_all(vec![add(1, PEER, 1), add(2, PEER, 2)]);
    let mut app = app();
    app.handle_net(NetEvent::Message(ServerMessage::Welcome {
        client_id: ME,
        room: "lobby".into(),
        snapshot: room.clone(),
        peers: vec![],
    }));
    assert_eq!(visible(&app), room.draw_order(), "a newcomer sees the room");
    app.handle_net(NetEvent::Disconnected {
        reason: "gone".into(),
    });
    // Both go on without the other.
    draw(&mut app, 3, &[point(0.0, 0.0), point(4.0, 0.0)]);
    app.select_tool(Tool::Eraser);
    app.eraser_input(press(point(0.0, 0.0)), &|s: &Stroke| s.id == 1);
    let queued: Vec<StrokeOp> = app
        .take_outgoing()
        .into_iter()
        .filter_map(|m| match m {
            ClientMessage::Ops(ops) => Some(ops),
            _ => None,
        })
        .flatten()
        .collect();
    room.apply_all(vec![remove(2, PEER, 3), add(4, PEER, 4)]);
    // Then they meet again.
    app.handle_server(ServerMessage::Snapshot(room.clone()));
    room.apply_all(queued);
    assert!(*app.document().strokes() == room);
    assert_eq!(visible(&app), vec![3, 4]);
}

#[test]
fn previews_show_what_is_being_drawn() {
    for tool in [Tool::Pen, Tool::Ellipse] {
        let mut artist = app();
        let mut viewer = WeavedrawApp::new(
            NetConfig {
                client_id: PEER,
                ..config()
            },
            0,
        );
        artist.select_tool(tool);
        for (i, x) in [0.0, 2.0, 4.0, 7.0].iter().enumerate() {
            let at = point(*x, 1.0);
            let input = if i == 0 { press(at) } else { drag(at) };
            artist.draw(9, input, &far, scalar(0.1), height);
            for msg in artist.take_outgoing() {
                if let ClientMessage::StrokeDelta(d) = msg {
                    viewer.handle_server(ServerMessage::StrokeDelta(d));
                }
            }
            assert_eq!(viewer.previews(), vec![artist.drawing().expect("drawing")]);
        }
    }
}

#[test]
fn undo_leaves_other_strokes_alone() {
    let mut app = app();
    draw(&mut app, 1, &[point(0.0, 0.0), point(4.0, 0.0)]);
    app.handle_server(ServerMessage::Ops {
        from: PEER,
        ops: vec![add(2, PEER, 5), remove(1, PEER, 6)],
    });
    draw(&mut app, 3, &[point(0.0, 0.0), point(4.0, 0.0)]);
    app.perform(Command::Undo);
    assert_eq!(visible(&app), vec![2]);
    app.perform(Command::Undo);
    assert_eq!(visible(&app), vec![2], "its stroke is gone already");
    app.perform(Command::Redo);
    assert_eq!(visible(&app), vec![2, 1]);
}

// ---- rendering plans --------------------------------------------------------

#[test]
fn chunk_key_is_order_sensitive_and_stable() {
    let a = uuid::Uuid::new_v4().as_u128();
    let b = uuid::Uuid::new_v4().as_u128();
    assert_eq!(chunk_key(&[a, b]), chunk_key(&[a, b]));
    assert_ne!(chunk_key(&[a, b]), chunk_key(&[b, a]));
    assert_ne!(chunk_key(&[a]), chunk_key(&[a, b]));
}

#[test]
fn chunk_keys_hash_the_ids_in_order() {
    let ids = [uuid::Uuid::from_u128(77), uuid::Uuid::new_v4()];
    let mut h = DefaultHasher::new();
    for id in ids {
        id.hash(&mut h);
    }
    assert_eq!(chunk_key(&[ids[0].as_u128(), ids[1].as_u128()]), h.finish());
    assert_eq!(chunk_key(&[]), DefaultHasher::new().finish());
}

#[test]
fn only_chunks_that_changed_are_uploaded() {
    let ids: Vec<u128> = (0..130).collect();
    let first = plan_sync(&vec![], &ids);
    assert_eq!(
        first.iter().map(|c| (c.start, c.end, c.upload)).collect::<Vec<_>>(),
        vec![(0, 64, true), (64, 128, true), (128, 130, true)]
    );
    let keys: Vec<u64> = first.iter().map(|c| c.key).collect();
    let uploads = |ids: &Vec<u128>| -> Vec<bool> {
        plan_sync(&keys, ids).iter().map(|c| c.upload).collect()
    };
    assert_eq!(uploads(&ids), vec![false, false, false]);
    let mut more = ids.clone();
    more.push(999);
    assert_eq!(uploads(&more), vec![false, false, true]);
    let mut fewer = ids.clone();
    fewer.remove(70);
    assert_eq!(uploads(&fewer), vec![false, true, true]);
    assert!(plan_sync(&keys, &vec![]).is_empty());
    assert!(needs_sync(true, Some(1), 1) && needs_sync(false, None, 1));
    assert!(needs_sync(false, Some(2), 1) && !needs_sync(false, Some(1), 1));
}

#[test]
fn labels_are_not_drawn_from_buffers() {
    let mut set = StrokeSet::new();
    set.apply(add(1, ME, 2));
    let mut label = stroke(2, ME);
    label.kind = StrokeKind::Text {
        content: "x".into(),
        size: scalar(10.0),
    };
    set.apply(StrokeOp::Add {
        stroke: label,
        ts: Timestamp::new(1, ME),
    });
    set.apply(add(3, ME, 1));
    assert_eq!(gpu_strokes(&set), vec![3, 1]);
}

#[test]
fn shaders_are_headed_by_the_interface_of_their_version() {
    assert_eq!(
        shader_header("#version 140\n", true, false),
        "#version 140\n#define NEW_SHADER_INTERFACE 1\n#define I in\n#define O out\n"
    );
    assert_eq!(
        shader_header("#version 100\n", false, true),
        "#version 100\n#define NEW_SHADER_INTERFACE 0\n\
         #define I attribute\n#define O varying\nprecision highp float;\n"
    );
}
