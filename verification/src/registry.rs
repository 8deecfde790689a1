//! In-memory registry of rooms, backed by per-room snapshot files.

use vstd::prelude::*;

use crate::codec::{decode, decoded, law_decode_inverts_encode, wire_format};
use crate::config::{Config, ConfigView};
use crate::crdt::{SetView, StrokeEntry, StrokeSet};
use crate::crdt_laws::law_snapshot_keeps_every_element;
use crate::ordmap::sorted_pairs;
use crate::room::{Room, RoomView};
use crate::text::{
    before, lemma_before_total, lemma_before_transitive, precedes, same_text, to_chars,
};
use crate::types::{RoomId, StrokeId};
use crate::wire::Wire;

verus! {

/// Whether a character may stand in a room id.
pub open spec fn slug_char(c: char) -> bool {
    ('a' <= c && c <= 'z') || ('A' <= c && c <= 'Z') || ('0' <= c && c <= '9') || c == '-' || c
        == '_'
}

/// Room ids are URL/file-safe slugs: `[A-Za-z0-9_-]{1,64}`.
pub open spec fn valid_room_id(id: Seq<char>) -> bool {
    1 <= id.len() <= 64 && forall|i: int| 0 <= i < id.len() ==> slug_char(#[trigger] id[i])
}

/// The file that holds a room's snapshot.
pub open spec fn snapshot_name(id: Seq<char>) -> Seq<char> {
    id + "."@ + "bincode"@
}

/// Where a snapshot that cannot be read is moved.
pub open spec fn aside_name(file: Seq<char>) -> Seq<char> {
    file + ".corrupt"@
}

/// Where a snapshot that cannot be read is moved.
pub fn aside_path(file: &str) -> (r: String)
    ensures
        r@ == aside_name(file@),
{
    let mut out = file.to_owned();
    out.append(".corrupt");
    out
}

/// What was found where a room's snapshot should be.
#[derive(Debug)]
pub enum Stored {
    Missing,
    Bytes(Vec<u8>),
    /// It could not be read, for the reason given.
    Failed(String),
}

/// What a room starts from.
#[derive(Debug)]
pub struct Loaded {
    pub set: StrokeSet,
    /// The snapshot could not be understood and is to be moved aside.
    pub set_aside: bool,
}

/// The state that stored bytes give a room: what they decode to, or nothing.
pub open spec fn restored(bytes: Seq<u8>) -> SetView {
    match decoded::<StrokeSet>(bytes) {
        Ok(set) => set,
        Err(_) => SetView::empty(),
    }
}

/// Make sense of what was stored. A snapshot that cannot be understood is moved
/// aside and the room opens empty.
pub fn load_snapshot(stored: Stored) -> (r: Result<Loaded, String>)
    ensures
        match (stored, r) {
            (Stored::Missing, Ok(l)) => l.set.wf() && l.set@ == SetView::empty() && !l.set_aside,
            (Stored::Bytes(bytes), Ok(l)) => l.set.wf() && l.set@ == restored(bytes@)
                && l.set_aside == (decoded::<StrokeSet>(bytes@) is Err),
            (Stored::Failed(why), Err(e)) => e@ == why@,
            _ => false,
        },
{
    match stored {
        Stored::Missing => Ok(Loaded { set: StrokeSet::new(), set_aside: false }),
        Stored::Bytes(bytes) => match decode::<StrokeSet>(bytes.as_slice()) {
            Ok(set) => Ok(Loaded { set, set_aside: false }),
            Err(_) => Ok(Loaded { set: StrokeSet::new(), set_aside: true }),
        },
        Stored::Failed(why) => Err(why),
    }
}

/// Summary exposed on `GET /rooms`.
#[derive(Debug)]
pub struct RoomInfo {
    pub id: RoomId,
    pub peers: usize,
    pub strokes: usize,
}

/// Mathematical counterpart of [`RoomInfo`].
pub struct InfoView {
    pub id: Seq<char>,
    pub peers: nat,
    pub strokes: nat,
}

impl View for RoomInfo {
    type V = InfoView;

    open spec fn view(&self) -> InfoView {
        InfoView { id: self.id@, peers: self.peers as nat, strokes: self.strokes as nat }
    }
}

impl Clone for RoomInfo {
    fn clone(&self) -> (r: RoomInfo)
        ensures
            r@ == self@,
    {
        RoomInfo { id: self.id.clone(), peers: self.peers, strokes: self.strokes }
    }
}

impl RoomView {
    pub open spec fn info(self) -> InfoView {
        InfoView {
            id: self.id,
            peers: self.peers.dom().len(),
            strokes: self.state.order.dom().len(),
        }
    }
}

/// A snapshot on its way to disk.
#[derive(Debug)]
pub struct Pending {
    /// The room it is of.
    pub id: RoomId,
    pub path: String,
    pub bytes: Vec<u8>,
}

pub struct Registry {
    config: Config,
    /// Open rooms, in ascending order of their ids.
    rooms: Vec<Room>,
}

/// The mathematical counterparts of rooms.
pub open spec fn room_views(rooms: Seq<Room>) -> Seq<RoomView> {
    rooms.map_values(|r: Room| r@)
}

/// The ids rise strictly.
pub open spec fn sorted_rooms(rooms: Seq<RoomView>) -> bool {
    forall|i: int, j: int| 0 <= i < j < rooms.len() ==> before(rooms[i].id, rooms[j].id)
}

/// Every room is well formed and no two share an id.
spec fn rooms_wf(rooms: Seq<Room>) -> bool {
    &&& forall|i: int| 0 <= i < rooms.len() ==> (#[trigger] rooms[i]).wf()
    &&& sorted_rooms(room_views(rooms))
}

/// The rooms with one more, in its place.
pub open spec fn with_room(rooms: Seq<RoomView>, room: RoomView) -> Seq<RoomView>
    decreases rooms.len(),
{
    if rooms.len() == 0 || before(rooms.last().id, room.id) {
        rooms.push(room)
    } else {
        with_room(rooms.drop_last(), room).push(rooms.last())
    }
}

proof fn lemma_with_room(rooms: Seq<RoomView>, room: RoomView, at: int)
    requires
        0 <= at <= rooms.len(),
        at > 0 ==> before(rooms[at - 1].id, room.id),
        forall|i: int| at <= i < rooms.len() ==> !before((#[trigger] rooms[i]).id, room.id),
    ensures
        with_room(rooms, room) == rooms.insert(at, room),
    decreases rooms.len(),
{
    if at < rooms.len() {
        let front = rooms.drop_last();
        assert forall|i: int| at <= i < front.len() implies !before((#[trigger] front[i]).id, room.id) by {
            assert(front[i] == rooms[i]);
        }
        assert(rooms[rooms.len() - 1] == rooms.last());
        lemma_with_room(front, room, at);
        assert(front.insert(at, room).push(rooms.last()) =~= rooms.insert(at, room));
    } else {
        if rooms.len() > 0 {
            assert(rooms[at - 1] == rooms.last());
        }
        assert(rooms.push(room) =~= rooms.insert(at, room));
    }
}

/// The rooms whose state changed since the last save, as saved.
pub open spec fn saved(rooms: Seq<RoomView>) -> Seq<RoomView> {
    rooms.map_values(|r: RoomView| RoomView { dirty: false, ..r })
}

/// What is on its way to disk: one snapshot for each room that changed.
pub open spec fn pending(rooms: Seq<RoomView>, upto: int) -> Seq<(Seq<char>, Seq<char>, Seq<u8>)>
    decreases upto,
{
    if upto <= 0 {
        Seq::empty()
    } else {
        let front = pending(rooms, upto - 1);
        if rooms[upto - 1].dirty {
            front.push(
                (
                    rooms[upto - 1].id,
                    rooms[upto - 1].path,
                    <StrokeSet as Wire>::bytes(rooms[upto - 1].state),
                ),
            )
        } else {
            front
        }
    }
}

pub open spec fn pending_views(items: Seq<Pending>) -> Seq<(Seq<char>, Seq<char>, Seq<u8>)> {
    items.map_values(|p: Pending| (p.id@, p.path@, p.bytes@))
}

/// The rooms, with those of an id to be saved again.
pub open spec fn marked(rooms: Seq<RoomView>, id: Seq<char>) -> Seq<RoomView> {
    rooms.map_values(
        |r: RoomView|
            if r.id == id {
                RoomView { dirty: true, ..r }
            } else {
                r
            },
    )
}

/// The rooms once it is known how the writes went.
pub open spec fn after_flush(
    rooms: Seq<RoomView>,
    outcomes: Seq<(Seq<char>, bool)>,
) -> Seq<RoomView>
    decreases outcomes.len(),
{
    if outcomes.len() == 0 {
        rooms
    } else {
        let front = after_flush(rooms, outcomes.drop_last());
        if outcomes.last().1 {
            front
        } else {
            marked(front, outcomes.last().0)
        }
    }
}

/// How many writes went well.
pub open spec fn written(outcomes: Seq<(Seq<char>, bool)>) -> nat
    decreases outcomes.len(),
{
    if outcomes.len() == 0 {
        0
    } else {
        written(outcomes.drop_last()) + if outcomes.last().1 {
            1nat
        } else {
            0nat
        }
    }
}

pub open spec fn outcome_views(outcomes: Seq<(RoomId, bool)>) -> Seq<(Seq<char>, bool)> {
    outcomes.map_values(|o: (RoomId, bool)| (o.0@, o.1))
}

impl Registry {
    pub closed spec fn settings(self) -> ConfigView {
        self.config@
    }

    /// The open rooms, in ascending order of their ids.
    pub closed spec fn open_rooms(self) -> Seq<RoomView> {
        room_views(self.rooms@)
    }

    /// Every room is well formed and no two share an id.
    pub closed spec fn wf(self) -> bool {
        rooms_wf(self.rooms@)
    }

    /// The open rooms stand in strictly ascending order of their ids, so no id
    /// occurs twice.
    pub proof fn law_rooms_are_sorted(self)
        requires
            self.wf(),
        ensures
            sorted_rooms(self.open_rooms()),
            forall|i: int, j: int|
                0 <= i < self.open_rooms().len() && 0 <= j < self.open_rooms().len()
                    && self.open_rooms()[i].id == self.open_rooms()[j].id ==> i == j,
    {
        let rooms = self.open_rooms();
        assert forall|i: int, j: int|
            0 <= i < rooms.len() && 0 <= j < rooms.len() && rooms[i].id == rooms[j].id implies i
            == j by {
            lemma_before_total(rooms[i].id, rooms[i].id);
            if i < j {
                assert(before(rooms[i].id, rooms[j].id));
            } else if j < i {
                assert(before(rooms[j].id, rooms[i].id));
            }
        }
    }

    pub fn new(config: Config) -> (r: Registry)
        ensures
            r.wf(),
            r.settings() == config@,
            r.open_rooms() == Seq::<RoomView>::empty(),
    {
        let r = Registry { config, rooms: Vec::new() };
        assert(r.open_rooms() =~= Seq::empty());
        r
    }

    pub fn config(&self) -> (r: &Config)
        ensures
            r@ == self.settings(),
    {
        &self.config
    }

    /// Room ids are URL/file-safe slugs: `[A-Za-z0-9_-]{1,64}`.
    pub fn is_valid_room_id(id: &str) -> (r: bool)
        ensures
            r == valid_room_id(id@),
    {
        let chars = to_chars(id);
        if chars.len() < 1 || chars.len() > 64 {
            return false;
        }
        let mut i: usize = 0;
        while i < chars.len()
            invariant
                i <= chars.len(),
                chars@ == id@,
                forall|k: int| 0 <= k < i ==> slug_char(#[trigger] chars@[k]),
            decreases chars.len() - i,
        {
            let c = chars[i];
            if !(('a' <= c && c <= 'z') || ('A' <= c && c <= 'Z') || ('0' <= c && c <= '9') || c == '-'
                || c == '_') {
                assert(!slug_char(id@[i as int]));
                return false;
            }
            i += 1;
        }
        true
    }

    /// The file that holds a room's snapshot, within the data directory.
    pub fn snapshot_path(id: &str) -> (r: String)
        ensures
            r@ == snapshot_name(id@),
    {
        let mut out = id.to_owned();
        out.append(".");
        out.append(wire_format());
        out
    }

    /// Which open room has an id.
    pub fn find(&self, id: &str) -> (r: Option<usize>)
        requires
            self.wf(),
        ensures
            match r {
                Some(i) => i < self.open_rooms().len() && self.open_rooms()[i as int].id == id@,
                None => forall|i: int|
                    0 <= i < self.open_rooms().len() ==> (#[trigger] self.open_rooms()[i]).id
                        != id@,
            },
    {
        let mut i: usize = 0;
        while i < self.rooms.len()
            invariant
                i <= self.rooms@.len(),
                forall|k: int|
                    0 <= k < i ==> (#[trigger] room_views(self.rooms@)[k]).id != id@,
            decreases self.rooms.len() - i,
        {
            if same_text(self.rooms[i].id(), id) {
                return Some(i);
            }
            i += 1;
        }
        None
    }

    /// Fetch a room, or open it from what was stored on first use. Says where
    /// the room stands and whether what was stored is to be moved aside.
    pub fn get_or_create(&mut self, id: &str, stored: Stored) -> (r: Result<(usize, bool), String>)
        requires
            old(self).wf(),
        ensures
            final(self).wf(),
            final(self).settings() == old(self).settings(),
            ({
                let rooms = old(self).open_rooms();
                let known = exists|i: int| 0 <= i < rooms.len() && (#[trigger] rooms[i]).id == id@;
                match r {
                    Ok((at, aside)) => {
                        &&& at < final(self).open_rooms().len()
                        &&& final(self).open_rooms()[at as int].id == id@
                        &&& known ==> final(self).open_rooms() == rooms && !aside
                        &&& !known ==> !(stored is Failed) && final(self).open_rooms()
                            == with_room(
                            rooms,
                            RoomView {
                                id: id@,
                                path: snapshot_name(id@),
                                state: match stored {
                                    Stored::Bytes(bytes) => restored(bytes@),
                                    _ => SetView::empty(),
                                },
                                peers: Map::empty(),
                                dirty: false,
                                max_peers: old(self).settings().max_peers,
                            },
                        ) && aside == (stored matches Stored::Bytes(bytes) && decoded::<StrokeSet>(
                            bytes@,
                        ) is Err)
                    },
                    Err(why) => {
                        &&& !known
                        &&& stored matches Stored::Failed(text) && text@ == why@
                        &&& final(self).open_rooms() == rooms
                    },
                }
            }),
    {
        let ghost rooms = self.open_rooms();
        if let Some(i) = self.find(id) {
            assert(rooms[i as int].id == id@);
            return Ok((i, false));
        }
        let loaded = match load_snapshot(stored) {
            Ok(loaded) => loaded,
            Err(why) => return Err(why),
        };
        let room = Room::new(
            id.to_owned(),
            Registry::snapshot_path(id),
            loaded.set,
            self.config.max_peers,
        );
        let mut at: usize = 0;
        while at < self.rooms.len() && precedes(self.rooms[at].id(), id)
            invariant
                at <= self.rooms@.len(),
                rooms == room_views(self.rooms@),
                forall|k: int| 0 <= k < at ==> before((#[trigger] rooms[k]).id, id@),
            decreases self.rooms.len() - at,
        {
            assert(rooms[at as int].id == self.rooms@[at as int]@.id);
            at += 1;
        }
        let ghost before_rooms = self.rooms@;
        proof {
            assert(room_views(self.rooms@) == rooms);
            assert forall|i: int| at <= i < rooms.len() implies !before(
                (#[trigger] rooms[i]).id,
                id@,
            ) && before(id@, rooms[i].id) by {
                lemma_before_total(rooms[at as int].id, id@);
                assert(rooms[at as int].id == self.rooms@[at as int]@.id);
                if i > at {
                    assert(before(rooms[at as int].id, rooms[i].id));
                    lemma_before_transitive(id@, rooms[at as int].id, rooms[i].id);
                }
                lemma_before_total(rooms[i].id, id@);
            }
            lemma_with_room(rooms, room@, at as int);
        }
        let ghost added = room@;
        self.rooms.insert(at, room);
        proof {
            assert(room_views(self.rooms@) =~= rooms.insert(at as int, added));
            assert forall|i: int, j: int|
                0 <= i < j < rooms.len() + 1 implies before(
                rooms.insert(at as int, added)[i].id,
                rooms.insert(at as int, added)[j].id,
            ) by {
                let a = if i < at { i } else { i - 1 };
                let b = if j < at { j } else { j - 1 };
                if i != at && j != at {
                    assert(before(rooms[a].id, rooms[b].id));
                } else if i == at {
                    assert(before(id@, rooms[b].id));
                } else {
                    assert(before(rooms[a].id, id@));
                }
            }
            assert forall|i: int| 0 <= i < self.rooms@.len() implies (#[trigger] self.rooms@[i]).wf() by {
                if i < at {
                    assert(self.rooms@[i] == before_rooms[i]);
                } else if i > at {
                    assert(self.rooms@[i] == before_rooms[i - 1]);
                }
            }
        }
        Ok((at, loaded.set_aside))
    }

    /// One of the open rooms.
    pub fn room(&self, at: usize) -> (r: &Room)
        requires
            self.wf(),
            at < self.open_rooms().len(),
        ensures
            r.wf(),
            r@ == self.open_rooms()[at as int],
    {
        &self.rooms[at]
    }

    /// One of the open rooms, to be changed. It keeps its id.
    pub fn room_mut(&mut self, at: usize) -> (r: &mut Room)
        requires
            old(self).wf(),
            at < old(self).open_rooms().len(),
        ensures
            r.wf(),
            r@ == old(self).open_rooms()[at as int],
            final(self).settings() == old(self).settings(),
            final(self).open_rooms() == old(self).open_rooms().update(at as int, final(r)@),
            final(r).wf() && final(r)@.id == r@.id ==> final(self).wf(),
    {
        proof {
            let rooms = self.rooms@;
            assert forall|x: Room|
                x.wf() && x@.id == rooms[at as int]@.id implies #[trigger] rooms_wf(
                rooms.update(at as int, x),
            ) by {
                let views = room_views(rooms);
                assert(room_views(rooms.update(at as int, x)) =~= views.update(at as int, x@));
                assert forall|i: int, j: int| 0 <= i < j < views.len() implies before(
                    views.update(at as int, x@)[i].id,
                    views.update(at as int, x@)[j].id,
                ) by {
                    assert(before(views[i].id, views[j].id));
                }
            }
        }
        &mut self.rooms[at]
    }

    /// The open rooms, in strictly ascending order of their ids.
    pub fn list(&self) -> (r: Vec<RoomInfo>)
        requires
            self.wf(),
        ensures
            forall|i: int, j: int|
                0 <= i < j < r@.len() ==> before((#[trigger] r@[i])@.id, (#[trigger] r@[j])@.id),
            r@.map_values(|i: RoomInfo| i@) == self.open_rooms().map_values(
                |room: RoomView| room.info(),
            ),
    {
        let ghost want = self.open_rooms().map_values(|room: RoomView| room.info());
        let mut out: Vec<RoomInfo> = Vec::new();
        let mut i: usize = 0;
        while i < self.rooms.len()
            invariant
                i <= self.rooms@.len(),
                self.wf(),
                want == self.open_rooms().map_values(|room: RoomView| room.info()),
                out@.map_values(|i: RoomInfo| i@) == want.take(i as int),
            decreases self.rooms.len() - i,
        {
            let room = &self.rooms[i];
            let ghost done = out@;
            let info = RoomInfo {
                id: room.id().to_owned(),
                peers: room.peer_count(),
                strokes: room.stroke_count(),
            };
            proof {
                assert(self.rooms@[i as int].wf());
                assert(want[i as int] == info@);
            }
            out.push(info);
            proof {
                assert(out@.map_values(|i: RoomInfo| i@) =~= done.map_values(|i: RoomInfo| i@).push(
                    info@,
                ));
                assert(want.take(i + 1) =~= want.take(i as int).push(want[i as int]));
            }
            i += 1;
        }
        assert(want.take(i as int) =~= want);
        proof {
            let infos = out@.map_values(|i: RoomInfo| i@);
            assert forall|i: int, j: int| 0 <= i < j < out@.len() implies before(
                (#[trigger] out@[i])@.id,
                (#[trigger] out@[j])@.id,
            ) by {
                assert(infos[i].id == self.open_rooms()[i].id);
                assert(infos[j].id == self.open_rooms()[j].id);
            }
        }
        out
    }

    /// What is to be written to disk: every dirty room. Each then counts as
    /// saved until [`flushed`](Self::flushed) says otherwise.
    pub fn flush_all(&mut self) -> (r: Vec<Pending>)
        requires
            old(self).wf(),
        ensures
            final(self).wf(),
            final(self).settings() == old(self).settings(),
            final(self).open_rooms() == saved(old(self).open_rooms()),
            pending_views(r@) == pending(
                old(self).open_rooms(),
                old(self).open_rooms().len() as int,
            ),
    {
        let ghost rooms = self.open_rooms();
        let ghost settings = self.settings();
        let mut out: Vec<Pending> = Vec::new();
        let mut i: usize = 0;
        assert(pending_views(out@) =~= Seq::empty());
        while i < self.rooms.len()
            invariant
                i <= self.rooms@.len() == rooms.len(),
                sorted_rooms(rooms),
                settings == self.settings(),
                forall|k: int| 0 <= k < self.rooms@.len() ==> (#[trigger] self.rooms@[k]).wf(),
                forall|k: int| 0 <= k < i ==> #[trigger] self.rooms@[k]@ == saved(rooms)[k],
                forall|k: int| i <= k < rooms.len() ==> #[trigger] self.rooms@[k]@ == rooms[k],
                pending_views(out@) == pending(rooms, i as int),
            decreases rooms.len() - i,
        {
            let ghost held = self.rooms@;
            let ghost done = out@;
            assert(self.rooms@[i as int]@ == rooms[i as int]);
            let found = self.rooms[i].save_if_dirty();
            proof {
                assert(forall|k: int|
                    0 <= k < rooms.len() && k != i ==> #[trigger] self.rooms@[k] == held[k]);
            }
            if let Some(bytes) = found {
                let item = Pending {
                    id: self.rooms[i].id().to_owned(),
                    path: self.rooms[i].path().to_owned(),
                    bytes,
                };
                out.push(item);
                assert(pending_views(out@) =~= pending_views(done).push(
                    (item.id@, item.path@, item.bytes@),
                ));
            }
            i += 1;
        }
        proof {
            assert(self.open_rooms() =~= saved(rooms));
            assert forall|a: int, b: int| 0 <= a < b < rooms.len() implies before(
                saved(rooms)[a].id,
                saved(rooms)[b].id,
            ) by {
                assert(before(rooms[a].id, rooms[b].id));
            }
        }
        out
    }

    /// Note how the writes went, room by room: one that failed is tried again
    /// on the next flush. Returns how many were written.
    pub fn flushed(&mut self, outcomes: Vec<(RoomId, bool)>) -> (r: usize)
        requires
            old(self).wf(),
        ensures
            final(self).wf(),
            final(self).settings() == old(self).settings(),
            final(self).open_rooms() == after_flush(
                old(self).open_rooms(),
                outcome_views(outcomes@),
            ),
            r == written(outcome_views(outcomes@)),
    {
        let ghost rooms = self.open_rooms();
        let ghost all = outcome_views(outcomes@);
        let ghost settings = self.settings();
        let mut count: usize = 0;
        let mut i: usize = 0;
        assert(after_flush(rooms, all.take(0)) =~= rooms);
        while i < outcomes.len()
            invariant
                i <= outcomes@.len(),
                all == outcome_views(outcomes@),
                self.wf(),
                settings == self.settings(),
                self.open_rooms() == after_flush(rooms, all.take(i as int)),
                count == written(all.take(i as int)),
                count <= i,
            decreases outcomes.len() - i,
        {
            proof {
                assert(all.take(i + 1).drop_last() =~= all.take(i as int));
                assert(all.take(i + 1).last() == (outcomes@[i as int].0@, outcomes@[i as int].1));
            }
            if outcomes[i].1 {
                count += 1;
            } else {
                self.mark_dirty(outcomes[i].0.as_str());
            }
            i += 1;
        }
        assert(all.take(i as int) =~= all);
        count
    }

    fn mark_dirty(&mut self, id: &str)
        requires
            old(self).wf(),
        ensures
            final(self).wf(),
            final(self).settings() == old(self).settings(),
            final(self).open_rooms() == marked(old(self).open_rooms(), id@),
    {
        let ghost rooms = self.open_rooms();
        match self.find(id) {
            Some(at) => {
                self.rooms[at].save_failed();
                proof {
                    assert forall|k: int| 0 <= k < rooms.len() implies #[trigger] marked(
                        rooms,
                        id@,
                    )[k] == room_views(self.rooms@)[k] by {
                        lemma_before_total(id@, id@);
                        if k < at {
                            assert(before(rooms[k].id, rooms[at as int].id));
                        } else if k > at {
                            assert(before(rooms[at as int].id, rooms[k].id));
                        }
                    }
                    assert(self.open_rooms() =~= marked(rooms, id@));
                    assert forall|a: int, b: int| 0 <= a < b < rooms.len() implies before(
                        marked(rooms, id@)[a].id,
                        marked(rooms, id@)[b].id,
                    ) by {
                        assert(before(rooms[a].id, rooms[b].id));
                    }
                }
            },
            None => {
                assert(self.open_rooms() =~= marked(rooms, id@));
            },
        }
    }
}

/// What a save gives back on the next start is what the room held.
pub proof fn law_snapshots_survive_a_restart(room: RoomView)
    requires
        <StrokeSet as Wire>::faithful(room.state),
    ensures
        restored(<StrokeSet as Wire>::bytes(room.state)) == room.state,
{
    law_decode_inverts_encode::<StrokeSet>(room.state);
}

/// Whatever a room held, nothing known of any stroke is lost in a save.
pub proof fn law_strokes_survive_a_restart(room: RoomView)
    requires
        room.state.entries.dom().finite(),
        <Vec<(StrokeId, StrokeEntry)> as Wire>::faithful(sorted_pairs(room.state.entries)),
    ensures
        restored(<StrokeSet as Wire>::bytes(room.state)).entries == room.state.entries,
{
    let pairs = sorted_pairs(room.state.entries);
    let bytes = <StrokeSet as Wire>::bytes(room.state);
    <Vec<(StrokeId, StrokeEntry)> as Wire>::round_trip(pairs, Seq::empty());
    assert(bytes + Seq::<u8>::empty() =~= bytes);
    law_snapshot_keeps_every_element(room.state);
}

/// After a flush, exactly the rooms whose write failed are still to be saved.
pub proof fn law_failed_writes_are_retried(
    rooms: Seq<RoomView>,
    outcomes: Seq<(Seq<char>, bool)>,
    i: int,
)
    requires
        0 <= i < rooms.len(),
    ensures
        after_flush(saved(rooms), outcomes).len() == rooms.len(),
        after_flush(saved(rooms), outcomes)[i] == (RoomView {
            dirty: outcomes.contains((rooms[i].id, false)),
            ..rooms[i]
        }),
{
    lemma_after_flush(saved(rooms), outcomes, i);
}

proof fn lemma_after_flush(rooms: Seq<RoomView>, outcomes: Seq<(Seq<char>, bool)>, i: int)
    requires
        0 <= i < rooms.len(),
    ensures
        after_flush(rooms, outcomes).len() == rooms.len(),
        after_flush(rooms, outcomes)[i] == (RoomView {
            dirty: rooms[i].dirty || outcomes.contains((rooms[i].id, false)),
            ..rooms[i]
        }),
    decreases outcomes.len(),
{
    if outcomes.len() > 0 {
        let front = outcomes.drop_last();
        lemma_after_flush(rooms, front, i);
        let failed = (rooms[i].id, false);
        if outcomes.contains(failed) {
            let k = choose|k: int| 0 <= k < outcomes.len() && outcomes[k] == failed;
            if k < front.len() {
                assert(front[k] == failed);
            }
        }
        if front.contains(failed) {
            let k = choose|k: int| 0 <= k < front.len() && front[k] == failed;
            assert(outcomes[k] == failed);
        }
        assert(outcomes[outcomes.len() - 1] == outcomes.last());
    }
}

} // verus!
