//! Whole sessions against a registry, with a table of files for a disk.

use std::collections::BTreeMap;

use weavedraw::codec::{decode_server, encode, wire_format};
use weavedraw::config::{Config, ConfigError, Vars};
use weavedraw::crdt::{LamportClock, StrokeOp, StrokeSet};
use weavedraw::protocol::{
    ClientMessage, Rejection, ServerMessage, StrokeDelta, PROTOCOL_VERSION,
};
use weavedraw::registry::{aside_path, load_snapshot, Registry, Stored};
use weavedraw::room::{Outbound, Room};
use weavedraw::types::{ClientId, CursorState, Point, Rgba, Scalar, Stroke, StrokeKind};
use weavedraw::ws::{enter, greet, next_message, reject, Awaited, Incoming, Peer, Reaction};

type Disk = BTreeMap<String, Vec<u8>>;

fn scalar(x: f32) -> Scalar {
    Scalar::from_bits(x.to_bits())
}

fn point(x: f32, y: f32) -> Point {
    Point::new(scalar(x), scalar(y))
}

fn fresh() -> ClientId {
    uuid::Uuid::new_v4().as_u128()
}

/// A client and, once it has joined, its session.
struct Client {
    id: ClientId,
    clock: LamportClock,
    session: Option<(String, Peer)>,
    inbox: Vec<ServerMessage>,
}

struct TestServer {
    registry: Registry,
    disk: Disk,
    clients: Vec<Client>,
}

impl TestServer {
    fn start(disk: Disk) -> Self {
        let config = Config {
            addr: "127.0.0.1:0".to_owned(),
            data_dir: "data".to_owned(),
            max_peers: 2,
            flush_interval_ms: 50,
            hello_timeout_ms: 500,
        };
        Self {
            registry: Registry::new(config),
            disk,
            clients: Vec::new(),
        }
    }

    /// Flush everything and hand back the disk.
    fn stop(mut self) -> Disk {
        let mut outcomes = Vec::new();
        for pending in self.registry.flush_all() {
            self.disk.insert(pending.path, pending.bytes);
            outcomes.push((pending.id, true));
        }
        self.registry.flushed(outcomes);
        self.disk
    }

    fn connect(&mut self) -> usize {
        let id = fresh();
        self.clients.push(Client {
            id,
            clock: LamportClock::new(id),
            session: None,
            inbox: Vec::new(),
        });
        self.clients.len() - 1
    }

    fn react(&mut self, who: usize, reaction: Reaction) {
        match reaction {
            Reaction::Nothing | Reaction::Close => {}
            Reaction::Reply(frame) => {
                assert!(!frame.text);
                let msg = decode_server(&frame.bytes).expect("decode");
                self.clients[who].inbox.push(msg);
            }
            Reaction::Broadcast(out) => {
                let (room, _) = self.clients[who].session.as_ref().expect("session");
                let room = room.clone();
                self.publish(&room, &out);
            }
        }
    }

    fn room_mut(&mut self, id: &str) -> &mut Room {
        let at = self.registry.find(id).expect("room");
        self.registry.room_mut(at)
    }

    fn publish(&mut self, room: &str, out: &Outbound) {
        for i in 0..self.clients.len() {
            let reaction = match &self.clients[i].session {
                Some((id, peer)) if id == room => peer.relay(out),
                _ => continue,
            };
            self.react(i, reaction);
        }
    }

    /// Send a message; the answer to a first message that is refused is a
    /// rejection, after which the session is over.
    fn send(&mut self, who: usize, msg: &ClientMessage) {
        let incoming = Incoming::Data(encode(msg).unwrap());
        if let Some((room, mut peer)) = self.clients[who].session.take() {
            let reaction = peer.receive(self.room_mut(&room), incoming);
            self.clients[who].session = Some((room, peer));
            self.react(who, reaction);
            return;
        }
        let first = match next_message(incoming) {
            Awaited::Message(first) => first,
            other => panic!("unexpected {other:?}"),
        };
        let greeting = match greet(first) {
            Ok(greeting) => greeting,
            Err(why) => return self.refuse(who, why),
        };
        let path = Registry::snapshot_path(greeting.room.as_str());
        let stored = match self.disk.get(&path) {
            Some(bytes) => Stored::Bytes(bytes.clone()),
            None => Stored::Missing,
        };
        let (at, set_aside) = self
            .registry
            .get_or_create(greeting.room.as_str(), stored)
            .expect("open room");
        if set_aside {
            let bytes = self.disk.remove(&path).expect("snapshot");
            self.disk.insert(aside_path(&path), bytes);
        }
        let room = greeting.room.clone();
        match enter(self.registry.room_mut(at), greeting) {
            Ok(admission) => {
                self.publish(&room, &admission.joined);
                let welcome = decode_server(&admission.welcome.bytes).expect("decode");
                self.clients[who].session = Some((room, admission.peer));
                self.clients[who].inbox.push(welcome);
            }
            Err(why) => self.refuse(who, why),
        }
    }

    fn refuse(&mut self, who: usize, why: Rejection) {
        let frame = reject(why).expect("frame");
        let msg = decode_server(&frame.bytes).expect("decode");
        self.clients[who].inbox.push(msg);
    }

    fn recv(&mut self, who: usize) -> ServerMessage {
        self.clients[who].inbox.remove(0)
    }

    fn close(&mut self, who: usize) {
        let (room, mut peer) = self.clients[who].session.take().expect("session");
        let reaction = peer.receive(self.room_mut(&room), Incoming::Close);
        assert!(matches!(reaction, Reaction::Close));
        match peer.depart(self.room_mut(&room)) {
            Reaction::Broadcast(out) => self.publish(&room, &out),
            other => panic!("unexpected {other:?}"),
        }
    }

    /// Full handshake; returns the `Welcome`.
    fn join(&mut self, room: &str, name: &str) -> (usize, ServerMessage) {
        let who = self.connect();
        let hello = hello(PROTOCOL_VERSION, self.clients[who].id, room, name);
        self.send(who, &hello);
        let welcome = self.recv(who);
        assert!(
            matches!(welcome, ServerMessage::Welcome { .. }),
            "got {welcome:?}"
        );
        (who, welcome)
    }

    fn add_op(&mut self, who: usize) -> StrokeOp {
        let client = &mut self.clients[who];
        let stroke = Stroke::new(client.id, Rgba::white(), scalar(2.0))
            .with_points(vec![point(0.0, 0.0), point(5.0, 5.0)]);
        StrokeOp::Add {
            stroke,
            ts: client.clock.tick(),
        }
    }

    /// Round-trip a ping to prove no other message is queued ahead of it.
    fn assert_quiet(&mut self, who: usize) {
        self.send(who, &ClientMessage::Ping(42));
        assert_eq!(self.recv(who), ServerMessage::Pong(42));
        assert!(self.clients[who].inbox.is_empty());
    }
}

fn hello(protocol: u16, client_id: ClientId, room: &str, name: &str) -> ClientMessage {
    tinted_hello(protocol, client_id, room, name, Rgba::from_hex(0x89b4fa))
}

fn white_hello(protocol: u16, client_id: ClientId, room: &str, name: &str) -> ClientMessage {
    tinted_hello(protocol, client_id, room, name, Rgba::white())
}

fn tinted_hello(
    protocol: u16,
    client_id: ClientId,
    room: &str,
    name: &str,
    color: Rgba,
) -> ClientMessage {
    ClientMessage::Hello {
        protocol,
        client_id,
        room: room.into(),
        name: name.into(),
        color,
    }
}

#[test]
fn unreadable_snapshot_is_moved_aside_and_room_opens_empty() {
    let file = format!("broken.{}", wire_format());
    let mut disk = Disk::new();
    disk.insert(file.clone(), b"definitely not a snapshot".to_vec());

    let mut server = TestServer::start(disk);
    let (_a, welcome) = server.join("broken", "a");
    match welcome {
        ServerMessage::Welcome { snapshot, .. } => assert!(snapshot.is_empty()),
        other => panic!("unexpected {other:?}"),
    }
    let disk = server.stop();

    assert!(!disk.contains_key(&file), "broken snapshot still in place");
    let aside = format!("broken.{}.corrupt", wire_format());
    assert_eq!(disk[&aside], b"definitely not a snapshot");
}

#[test]
fn handshake_welcome_and_peer_join_notifications() {
    let mut server = TestServer::start(Disk::new());

    let (a, welcome_a) = server.join("lobby", "alice");
    match welcome_a {
        ServerMessage::Welcome {
            client_id,
            room,
            snapshot,
            peers,
        } => {
            assert_eq!(client_id, server.clients[a].id);
            assert_eq!(room, "lobby");
            assert!(snapshot.is_empty());
            assert!(peers.is_empty());
        }
        other => panic!("unexpected {other:?}"),
    }

    let (b, welcome_b) = server.join("lobby", "bob");
    match welcome_b {
        ServerMessage::Welcome { peers, .. } => {
            assert_eq!(peers.len(), 1);
            assert_eq!(peers[0].client_id, server.clients[a].id);
            assert_eq!(peers[0].name, "alice");
        }
        other => panic!("unexpected {other:?}"),
    }

    match server.recv(a) {
        ServerMessage::PeerJoined(c) => {
            assert_eq!(c.client_id, server.clients[b].id);
            assert_eq!(c.name, "bob");
        }
        other => panic!("unexpected {other:?}"),
    }

    let rooms = server.registry.list();
    assert_eq!(rooms.len(), 1);
    assert_eq!((rooms[0].id.as_str(), rooms[0].peers), ("lobby", 2));
}

#[test]
fn ops_are_broadcast_to_peers_but_not_echoed() {
    let mut server = TestServer::start(Disk::new());
    let (a, _) = server.join("r", "a");
    let (b, _) = server.join("r", "b");
    let _ = server.recv(a); // PeerJoined(b)

    let op = server.add_op(a);
    server.send(a, &ClientMessage::Ops(vec![op.clone()]));

    match server.recv(b) {
        ServerMessage::Ops { from, ops } => {
            assert_eq!(from, server.clients[a].id);
            assert_eq!(ops, vec![op]);
        }
        other => panic!("unexpected {other:?}"),
    }
    server.assert_quiet(a);
}

#[test]
fn late_joiner_receives_snapshot_and_lagging_is_recoverable() {
    let mut server = TestServer::start(Disk::new());
    let (a, _) = server.join("r", "a");

    let add = server.add_op(a);
    let doomed = server.add_op(a);
    let doomed_id = doomed.id();
    server.send(a, &ClientMessage::Ops(vec![add.clone(), doomed]));
    let rm = StrokeOp::Remove {
        id: doomed_id,
        ts: server.clients[a].clock.tick(),
    };
    server.send(a, &ClientMessage::Ops(vec![rm]));
    server.assert_quiet(a); // make sure the server has applied everything

    let (c, welcome) = server.join("r", "c");
    match welcome {
        ServerMessage::Welcome { snapshot, .. } => {
            assert_eq!(snapshot.len(), 1);
            assert_eq!(snapshot.tracked_len(), 2, "tombstone retained");
            assert!(snapshot.contains(add.id()));
        }
        other => panic!("unexpected {other:?}"),
    }

    server.send(c, &ClientMessage::RequestSnapshot);
    assert!(matches!(server.recv(c), ServerMessage::Snapshot(s) if s.len() == 1));

    // A peer that fell behind gets the same.
    let (room, peer) = server.clients[c].session.take().expect("session");
    let reaction = peer.resync(server.room_mut(&room));
    server.react(c, reaction);
    assert!(matches!(server.recv(c), ServerMessage::Snapshot(s) if s.len() == 1));
}

#[test]
fn presence_is_relayed_with_identity_enforced() {
    let mut server = TestServer::start(Disk::new());
    let (a, _) = server.join("r", "a");
    let (b, _) = server.join("r", "b");
    let _ = server.recv(a); // PeerJoined(b)

    // Try to impersonate someone else; the server must stamp our real id.
    let mut spoofed = CursorState::new(fresh(), "mallory".to_owned(), Rgba::black());
    spoofed.position = Some(point(3.0, 4.0));
    spoofed.drawing = true;
    server.send(a, &ClientMessage::Cursor(spoofed));

    match server.recv(b) {
        ServerMessage::Cursor(c) => {
            assert_eq!(c.client_id, server.clients[a].id);
            assert_eq!(c.name, "a");
            assert_eq!(c.color, Rgba::from_hex(0x89b4fa));
            assert_eq!(c.position, Some(point(3.0, 4.0)));
            assert!(c.drawing);
        }
        other => panic!("unexpected {other:?}"),
    }

    // Stroke previews are relayed the same way.
    server.send(
        a,
        &ClientMessage::StrokeDelta(StrokeDelta {
            stroke_id: fresh(),
            client_id: fresh(),
            color: Rgba::white(),
            width: scalar(1.0),
            kind: StrokeKind::Freehand,
            points: vec![Point::zero()],
        }),
    );
    let a_id = server.clients[a].id;
    assert!(matches!(server.recv(b), ServerMessage::StrokeDelta(d) if d.client_id == a_id));

    // A never hears its own presence back.
    server.assert_quiet(a);
}

#[test]
fn peer_disconnect_is_announced() {
    let mut server = TestServer::start(Disk::new());
    let (a, _) = server.join("r", "a");
    let (b, _) = server.join("r", "b");
    let _ = server.recv(a); // PeerJoined(b)

    let b_id = server.clients[b].id;
    server.close(b);

    assert_eq!(server.recv(a), ServerMessage::PeerLeft(b_id));
    assert_eq!(server.registry.list()[0].peers, 1);
}

#[test]
fn bad_handshakes_are_rejected() {
    let mut server = TestServer::start(Disk::new());

    // Wrong protocol version.
    let c = server.connect();
    let msg = white_hello(99, server.clients[c].id, "r", "x");
    server.send(c, &msg);
    assert_eq!(
        server.recv(c),
        ServerMessage::Rejected(Rejection::UnsupportedProtocol {
            server: PROTOCOL_VERSION,
            client: 99
        })
    );
    assert!(server.clients[c].session.is_none());

    // Non-Hello first message.
    let c = server.connect();
    server.send(c, &ClientMessage::Ping(1));
    assert_eq!(
        server.recv(c),
        ServerMessage::Rejected(Rejection::NotJoined)
    );

    // Room id with path characters.
    let c = server.connect();
    let msg = white_hello(PROTOCOL_VERSION, server.clients[c].id, "../etc", "x");
    server.send(c, &msg);
    assert_eq!(
        server.recv(c),
        ServerMessage::Rejected(Rejection::InvalidRoom)
    );

    // Room capacity (max_peers = 2 in the test config).
    let (_a, _) = server.join("full", "a");
    let (_b, _) = server.join("full", "b");
    let c = server.connect();
    let msg = white_hello(PROTOCOL_VERSION, server.clients[c].id, "full", "c");
    server.send(c, &msg);
    assert_eq!(server.recv(c), ServerMessage::Rejected(Rejection::RoomFull));
}

#[test]
fn snapshots_survive_a_restart() {
    let mut server = TestServer::start(Disk::new());
    let (a, _) = server.join("persist", "a");
    let op = server.add_op(a);
    server.send(a, &ClientMessage::Ops(vec![op.clone()]));
    server.assert_quiet(a);
    let disk = server.stop(); // final flush

    let file = format!("persist.{}", wire_format());
    assert!(disk.contains_key(&file), "snapshot file written at {file}");

    let mut server = TestServer::start(disk);
    let (_b, welcome) = server.join("persist", "b");
    match welcome {
        ServerMessage::Welcome { snapshot, .. } => {
            assert_eq!(snapshot.len(), 1);
            assert!(snapshot.contains(op.id()));
        }
        other => panic!("unexpected {other:?}"),
    }
}

// ---- single steps -----------------------------------------------------------

#[test]
fn a_repeated_hello_and_garbage_are_malformed() {
    let mut server = TestServer::start(Disk::new());
    let (a, _) = server.join("r", "a");
    let again = hello(PROTOCOL_VERSION, server.clients[a].id, "r", "a");
    server.send(a, &again);
    assert_eq!(
        server.recv(a),
        ServerMessage::Rejected(Rejection::Malformed)
    );

    let (room, mut peer) = server.clients[a].session.take().expect("session");
    let reaction = peer.receive(server.room_mut(&room), Incoming::Data(vec![0xff]));
    server.clients[a].session = Some((room, peer));
    server.react(a, reaction);
    assert_eq!(
        server.recv(a),
        ServerMessage::Rejected(Rejection::Malformed)
    );
    // An empty batch says nothing to anyone.
    server.send(a, &ClientMessage::Ops(vec![]));
    server.assert_quiet(a);
}

#[test]
fn waiting_for_the_greeting_skips_what_is_no_message() {
    assert!(matches!(next_message(Incoming::Control), Awaited::Skip));
    assert!(matches!(
        next_message(Incoming::Data(vec![0xff; 3])),
        Awaited::Skip
    ));
    assert!(matches!(next_message(Incoming::Close), Awaited::Closed));
}

#[test]
fn long_names_are_cut_to_whole_characters() {
    let mut server = TestServer::start(Disk::new());
    let (a, _) = server.join("r", "a");
    let (_b, _) = server.join("r", &"é".repeat(40));
    match server.recv(a) {
        ServerMessage::PeerJoined(c) => assert_eq!(c.name, "é".repeat(32)),
        other => panic!("unexpected {other:?}"),
    }
}

#[test]
fn a_peer_may_come_back_to_a_full_room() {
    let mut server = TestServer::start(Disk::new());
    let (a, _) = server.join("r", "a");
    let (_b, _) = server.join("r", "b");
    let again = server.connect();
    let msg = hello(PROTOCOL_VERSION, server.clients[a].id, "r", "a2");
    server.send(again, &msg);
    assert!(matches!(
        server.recv(again),
        ServerMessage::Welcome { peers, .. } if peers.len() == 1
    ));
    assert_eq!(server.registry.list()[0].peers, 2);
}

#[test]
fn a_cursor_of_someone_who_left_is_not_kept() {
    let mut room = Room::new("r".into(), "r.bincode".into(), StrokeSet::new(), 1);
    let cursor = CursorState::new(5, "x".into(), Rgba::black());
    room.update_cursor(cursor.clone());
    assert_eq!(room.peer_count(), 0);
    assert_eq!(room.join(cursor.clone()), Ok(()));
    let other = CursorState::new(6, "y".into(), Rgba::black());
    assert_eq!(room.join(other), Err(Rejection::RoomFull));
    assert!(room.peers_except(5).is_empty());
    assert_eq!(room.peers_except(7).len(), 1);
    assert!(room.leave(5) && !room.leave(5));
    assert_eq!((room.id(), room.path()), ("r", "r.bincode"));
}

#[test]
fn room_ids_are_slugs() {
    for good in ["a", "A-z_09", &"x".repeat(64)] {
        assert!(Registry::is_valid_room_id(good), "{good}");
    }
    for bad in ["", "a b", "a/b", "..", "é", "a.b", &"x".repeat(65)] {
        assert!(!Registry::is_valid_room_id(bad), "{bad}");
    }
    assert_eq!(Registry::snapshot_path("lobby"), "lobby.bincode");
    assert_eq!(aside_path("lobby.bincode"), "lobby.bincode.corrupt");
}

#[test]
fn rooms_are_listed_in_order_and_reused() {
    let mut registry = Registry::new(Config::default());
    for id in ["b", "a-long", "a"] {
        let (_, aside) = registry.get_or_create(id, Stored::Missing).unwrap();
        assert!(!aside);
    }
    let (again, _) = registry
        .get_or_create("b", Stored::Failed("never looked at".into()))
        .unwrap();
    assert_eq!(registry.room(again).id(), "b");
    assert_eq!(registry.find("b"), Some(again));
    assert_eq!(registry.find("c"), None);
    let listed: Vec<String> = registry.list().into_iter().map(|r| r.id).collect();
    assert_eq!(listed, vec!["a", "a-long", "b"]);
    assert_eq!(
        registry.get_or_create("d", Stored::Failed("no disk".into())),
        Err("no disk".to_owned())
    );
    assert_eq!(registry.config().max_peers, 64);
}

#[test]
fn only_rooms_with_news_are_written_and_failures_are_retried() {
    let mut server = TestServer::start(Disk::new());
    let (a, _) = server.join("r", "a");
    let (_c, _) = server.join("quiet", "c");
    assert!(server.registry.flush_all().is_empty());
    // A tombstone for something never seen is news too.
    let ts = server.clients[a].clock.tick();
    server.send(a, &ClientMessage::Ops(vec![StrokeOp::Remove { id: 1, ts }]));
    let first = server.registry.flush_all();
    assert_eq!(first.len(), 1);
    assert_eq!((first[0].id.as_str(), first[0].path.as_str()), ("r", "r.bincode"));
    assert_eq!(server.registry.flushed(vec![("r".to_owned(), false)]), 0);
    let second = server.registry.flush_all();
    assert_eq!(second[0].bytes, first[0].bytes);
    assert_eq!(server.registry.flushed(vec![("r".to_owned(), true)]), 1);
    assert!(server.registry.flush_all().is_empty());
    match load_snapshot(Stored::Bytes(second[0].bytes.clone())) {
        Ok(loaded) => assert!(loaded.set.tracked_len() == 1 && !loaded.set_aside),
        Err(e) => panic!("unexpected {e}"),
    }
}

#[test]
fn frames_go_to_everyone_but_their_author() {
    let room = Room::new("r".into(), "r".into(), StrokeSet::new(), 1);
    let out = room.broadcast(Some(1), &ServerMessage::PeerLeft(1)).unwrap();
    assert!(!out.is_for(1) && out.is_for(2));
    let all = room.broadcast(None, &ServerMessage::PeerLeft(1)).unwrap();
    assert!(all.is_for(1));
}

#[test]
fn configuration_comes_from_the_environment() {
    let vars = |addr: Option<&str>, ok: bool, dir: Option<&str>, peers: Option<&str>, secs: Option<&str>| Vars {
        addr: addr.map(str::to_owned),
        addr_is_valid: ok,
        data_dir: dir.map(str::to_owned),
        max_peers: peers.map(str::to_owned),
        flush_secs: secs.map(str::to_owned),
    };
    let plain = Config::from_env(vars(None, false, None, None, None)).unwrap();
    assert_eq!(
        (plain.addr.as_str(), plain.data_dir.as_str(), plain.max_peers),
        ("127.0.0.1:8080", "data", 64)
    );
    assert_eq!((plain.flush_interval_ms, plain.hello_timeout_ms), (2000, 10000));
    let set = Config::from_env(vars(Some("[::]:1"), true, Some("/x"), Some("+7"), Some("09")))
        .unwrap();
    assert_eq!(
        (set.addr.as_str(), set.data_dir.as_str(), set.max_peers, set.flush_interval_ms),
        ("[::]:1", "/x", 7, 9000)
    );
    let err = |v: Vars| Config::from_env(v).unwrap_err();
    let addr = err(vars(Some("nowhere"), false, None, Some("x"), None));
    assert_eq!(addr, ConfigError::Addr);
    assert_eq!(addr.describe(), "WEAVEDRAW_ADDR is not a socket address");
    for bad in ["", "-1", "+", " 1", "1_0", "18446744073709551616"] {
        let e = err(vars(None, false, None, Some(bad), Some("x")));
        assert_eq!(e, ConfigError::MaxPeers);
        assert_eq!(e.describe(), "WEAVEDRAW_MAX_PEERS is not a number");
    }
    let secs = err(vars(None, false, None, None, Some("1.5")));
    assert_eq!(secs, ConfigError::FlushSecs);
    assert_eq!(secs.describe(), "WEAVEDRAW_FLUSH_SECS is not a number");
}
