//! Laws of what a peer hears from the server, and of what it tells of itself.

use vstd::prelude::*;

use crate::board::{heeds, AppView, ConnectionView};
use crate::board_laws::law_remote_ops_are_applied;
use crate::crdt::{OpView, SetView, Timestamp};
use crate::crdt_laws::named;
use crate::ordmap::{
    lemma_pairs_map_at, lemma_pairs_map_dom, lemma_pairs_map_len, lemma_sorted_pairs_exist,
    sorted_pairs,
};
use crate::panel::{by_name, placed, row_of};
use crate::protocol::{ClientView, ServerView};
use crate::state_laws::law_documents_merge;
use crate::text::{before, decimal, lemma_before_total, lemma_before_transitive};
use crate::types::{ClientId, CursorView, Point, Rgba, StrokeId, StrokeView};

verus! {

/// After a welcome or a snapshot the board holds of every stroke the newest add
/// and the newest remove that it or the server knew of, whatever it held before.
/// Its clock shows the greatest counter among what it showed and what it got.
pub proof fn law_snapshots_are_taken_in(
    app: AppView,
    msg: ServerView,
    got: SetView,
    after: AppView,
    id: StrokeId,
)
    requires
        heeds(app, msg, after),
        (msg is Welcome && got == msg->snapshot) || (msg is Snapshot && got == msg->Snapshot_0),
        got.entries.dom().finite(),
        named(got),
    ensures
        ({
            let (x, y, m) = (app.doc.set.entry(id), got.entry(id), after.doc.set.entry(id));
            &&& after.doc.set == app.doc.set.merge(got)
            &&& after.doc == app.doc.merged(got)
            &&& m.add == x.add || m.add == y.add
            &&& m.removed == x.removed || m.removed == y.removed
            &&& x.add matches Some(was) ==> m.add matches Some(now) && !was.ts.after(now.ts)
            &&& y.add matches Some(was) ==> m.add matches Some(now) && !was.ts.after(now.ts)
            &&& x.removed matches Some(was) ==> m.removed matches Some(now) && !was.after(now)
            &&& y.removed matches Some(was) ==> m.removed matches Some(now) && !was.after(now)
        }),
        after.time >= app.time,
        forall|ts: Timestamp| #[trigger] got.mentions(ts) ==> ts.counter <= after.time,
        after.time == app.time || exists|ts: Timestamp| #[trigger]
            got.mentions(ts) && ts.counter == after.time,
        msg is Snapshot ==> after == (AppView { doc: after.doc, time: after.time, ..app }),
{
    law_documents_merge(app.doc, got, id);
}

/// A welcome puts the board online with the peers that the server lists (the
/// last entry of each), without previews, and has the own cursor told anew.
pub proof fn law_welcomes_start_afresh(app: AppView, msg: ServerView, after: AppView, who: ClientId)
    requires
        heeds(app, msg, after),
        msg is Welcome,
    ensures
        after.conn == ConnectionView::Online,
        after.previews == Map::<StrokeId, StrokeView>::empty(),
        after.last_cursor is None,
        after.peers.contains_key(who) <==> exists|i: int|
            0 <= i < msg->peers.len() && (#[trigger] msg->peers[i]).client_id == who,
        after.peers.contains_key(who) ==> exists|i: int|
            0 <= i < msg->peers.len() && (#[trigger] msg->peers[i]).client_id == who
                && after.peers[who] == msg->peers[i] && forall|j: int|
                i < j < msg->peers.len() ==> (#[trigger] msg->peers[j]).client_id != who,
        after == (AppView {
            conn: after.conn,
            peers: after.peers,
            previews: after.previews,
            last_cursor: after.last_cursor,
            doc: after.doc,
            time: after.time,
            ..app
        }),
{
    lemma_listed(msg->peers, who);
}

proof fn lemma_listed(peers: Seq<CursorView>, who: ClientId)
    ensures
        AppView::listed(peers).contains_key(who) <==> exists|i: int|
            0 <= i < peers.len() && (#[trigger] peers[i]).client_id == who,
        AppView::listed(peers).contains_key(who) ==> exists|i: int|
            0 <= i < peers.len() && (#[trigger] peers[i]).client_id == who && AppView::listed(
                peers,
            )[who] == peers[i] && forall|j: int|
                i < j < peers.len() ==> (#[trigger] peers[j]).client_id != who,
    decreases peers.len(),
{
    if peers.len() > 0 {
        let front = peers.drop_last();
        let last = peers.len() - 1;
        lemma_listed(front, who);
        assert(peers[last] == peers.last());
        if peers.last().client_id != who {
            if exists|i: int| 0 <= i < peers.len() && (#[trigger] peers[i]).client_id == who {
                let i = choose|i: int| 0 <= i < peers.len() && (#[trigger] peers[i]).client_id == who;
                assert(front[i].client_id == who);
            }
            if AppView::listed(front).contains_key(who) {
                let i = choose|i: int|
                    0 <= i < front.len() && (#[trigger] front[i]).client_id == who
                        && AppView::listed(front)[who] == front[i] && forall|j: int|
                        i < j < front.len() ==> (#[trigger] front[j]).client_id != who;
                assert(peers[i].client_id == who);
                assert forall|j: int| i < j < peers.len() implies (#[trigger] peers[j]).client_id
                    != who by {
                    if j < last {
                        assert(front[j].client_id != who);
                    }
                }
            }
        }
    }
}

/// Operations from the server are applied in order. The clock follows, the
/// previews lose exactly the strokes that were added, and nothing else changes.
pub proof fn law_heard_operations_are_applied(app: AppView, msg: ServerView, after: AppView, k: StrokeId)
    requires
        heeds(app, msg, after),
        msg is Ops,
    ensures
        ({
            let ops = msg->Ops_ops;
            &&& after.doc == app.doc.applied_all(ops)
            &&& after.doc.set == app.doc.set.apply_all(ops)
            &&& after.time >= app.time
            &&& forall|i: int|
                0 <= i < ops.len() ==> (#[trigger] ops[i]).ts().counter <= after.time
            &&& after.time == app.time || exists|i: int|
                0 <= i < ops.len() && (#[trigger] ops[i]).ts().counter == after.time
            &&& after.previews.contains_key(k) <==> app.previews.contains_key(k) && forall|i: int|
                0 <= i < ops.len() ==> !((#[trigger] ops[i]) is Add && ops[i].id() == k)
            &&& after.previews.contains_key(k) ==> after.previews[k] == app.previews[k]
            &&& after == (AppView {
                doc: after.doc,
                time: after.time,
                previews: after.previews,
                ..app
            })
        }),
{
    law_remote_ops_are_applied(app, msg->Ops_ops);
    lemma_counted(app, msg->Ops_ops);
}

proof fn lemma_counted(app: AppView, ops: Seq<OpView>)
    ensures
        app.heard_ops(ops).doc == app.doc.applied_all(ops),
    decreases ops.len(),
{
    if ops.len() > 0 {
        lemma_counted(app, ops.drop_last());
    }
}

/// A peer's cursor replaces what was known of that peer and of no other; the own
/// cursor coming back is nothing new.
pub proof fn law_cursors_are_kept(app: AppView, msg: ServerView, after: AppView, who: ClientId)
    requires
        heeds(app, msg, after),
        msg is Cursor || msg is PeerJoined,
    ensures
        ({
            let c = if msg is Cursor {
                msg->Cursor_0
            } else {
                msg->PeerJoined_0
            };
            &&& c.client_id == app.me ==> after == app
            &&& c.client_id != app.me ==> {
                &&& after.peers.contains_key(c.client_id)
                &&& after.peers[c.client_id] == c
                &&& who != c.client_id ==> after.peers.contains_key(who)
                    == app.peers.contains_key(who)
                &&& who != c.client_id && app.peers.contains_key(who) ==> after.peers[who]
                    == app.peers[who]
                &&& after == (AppView { peers: after.peers, ..app })
            }
        }),
{
}

/// A peer that left is gone from the list, and so is what it was drawing; the
/// other peers and what they are drawing stay.
pub proof fn law_leaving_peers_are_forgotten(
    app: AppView,
    msg: ServerView,
    after: AppView,
    who: ClientId,
    k: StrokeId,
)
    requires
        heeds(app, msg, after),
        msg is PeerLeft,
    ensures
        ({
            let gone = msg->PeerLeft_0;
            &&& after.peers.contains_key(who) <==> app.peers.contains_key(who) && who != gone
            &&& after.peers.contains_key(who) ==> after.peers[who] == app.peers[who]
            &&& after.previews.contains_key(k) <==> app.previews.contains_key(k)
                && app.previews[k].client_id != gone
            &&& after.previews.contains_key(k) ==> after.previews[k] == app.previews[k]
            &&& after == (AppView { peers: after.peers, previews: after.previews, ..app })
        }),
{
}

/// A chunk of another peer's stroke extends its preview, or begins one that
/// carries the stroke's id, author, colour and width. What the peer draws
/// itself, and what is on the board already, needs no preview.
pub proof fn law_chunks_extend_previews(
    app: AppView,
    msg: ServerView,
    after: AppView,
    k: StrokeId,
)
    requires
        heeds(app, msg, after),
        msg is StrokeDelta,
    ensures
        ({
            let d = msg->StrokeDelta_0;
            let was = app.previews[d.stroke_id];
            let now = after.previews[d.stroke_id];
            let known = app.previews.contains_key(d.stroke_id);
            if d.client_id == app.me || app.doc.set.get(d.stroke_id) is Some {
                after == app
            } else {
                &&& after.previews.contains_key(d.stroke_id)
                &&& k != d.stroke_id ==> after.previews.contains_key(k)
                    == app.previews.contains_key(k)
                &&& k != d.stroke_id && app.previews.contains_key(k) ==> after.previews[k]
                    == app.previews[k]
                &&& !known ==> now == (StrokeView {
                    id: d.stroke_id,
                    client_id: d.client_id,
                    color: d.color,
                    width: d.width,
                    kind: d.kind,
                    points: d.points,
                })
                &&& known && d.kind is Freehand && was.kind is Freehand ==> now == (StrokeView {
                    points: was.points + d.points,
                    ..was
                })
                &&& known && !(d.kind is Freehand && was.kind is Freehand) ==> now == (StrokeView {
                    kind: d.kind,
                    points: d.points,
                    ..was
                })
                &&& after == (AppView { previews: after.previews, ..app })
            }
        }),
{
    let d = msg->StrokeDelta_0;
    assert(Seq::<Point>::empty() + d.points =~= d.points);
}

/// A refusal takes the board offline and leaves all that is on it; a pong is
/// not for the board.
pub proof fn law_refusals_leave_the_board(app: AppView, msg: ServerView, after: AppView)
    requires
        heeds(app, msg, after),
    ensures
        msg matches ServerView::Rejected(why) ==> after == (AppView {
            conn: ConnectionView::Offline { reason: "rejected: "@ + why.words() },
            ..app
        }),
        msg is Pong ==> after == app,
{
}

/// A peer tells the others of its cursor only while it is online, never twice
/// the same, and not before 33 milliseconds have passed since it last did,
/// unless the pointer has just left the canvas. What it tells is its own name,
/// colour, position, and whether it is drawing.
pub proof fn law_cursors_are_announced(app: AppView, position: Option<Point>, now: u64)
    ensures
        ({
            let after = app.announced(position, now);
            let own = CursorView {
                client_id: app.me,
                name: app.name,
                color: app.presence,
                position,
                drawing: app.drawing is Some,
            };
            let told = after.outgoing != app.outgoing;
            &&& !told ==> after == app
            &&& told ==> after == (AppView {
                last_cursor: Some(own),
                last_cursor_sent: now,
                outgoing: app.outgoing.push(ClientView::Cursor(own)),
                ..app
            })
            &&& told ==> app.conn is Online
            &&& told && app.last_cursor is Some ==> !app.last_cursor->0.same_as(own)
            &&& told && !(now >= app.last_cursor_sent + 33) ==> position is None
                && app.last_cursor is Some && app.last_cursor->0.position is Some
            &&& app.conn is Online && (app.last_cursor is None || !app.last_cursor->0.same_as(own))
                && now >= app.last_cursor_sent + 33 ==> told
            &&& app.conn is Online && position is None && app.last_cursor is Some
                && app.last_cursor->0.position is Some ==> told
        }),
{
    let own = app.own_cursor(position);
    let more = app.outgoing.push(ClientView::Cursor(own));
    assert(more.len() != app.outgoing.len());
}

/// The list of peers shows the peer itself first, then every other peer once, in
/// order of their names.
pub proof fn law_the_list_shows_every_peer(app: AppView)
    requires
        app.peers.dom().finite(),
    ensures
        ({
            let rows = app.rows();
            &&& rows.len() == app.peers.dom().len() + 1
            &&& rows[0].me
            &&& rows[0].name == app.name + " (you)"@
            &&& rows[0].color == app.presence
            &&& rows[0].drawing == (app.drawing is Some)
            &&& forall|i: int| 0 < i < rows.len() ==> !(#[trigger] rows[i]).me
            &&& forall|i: int, j: int|
                0 < i < j < rows.len() ==> !before(
                    (#[trigger] rows[j]).name,
                    (#[trigger] rows[i]).name,
                )
        }),
        exists|shown: Seq<CursorView>| #[trigger]
            shown.len() == app.peers.dom().len() && (forall|who: ClientId| #[trigger]
                app.peers.contains_key(who) ==> shown.contains(app.peers[who])) && (forall|i: int|
                0 <= i < shown.len() ==> app.rows()[i + 1].name == (#[trigger] shown[i]).name
                    && app.rows()[i + 1].color == shown[i].color && app.rows()[i + 1].drawing
                    == shown[i].drawing),
{
    let pairs = sorted_pairs(app.peers);
    lemma_sorted_pairs_exist(app.peers);
    let cursors = pairs.map_values(|p: (ClientId, CursorView)| p.1);
    let shown = by_name(cursors);
    lemma_by_name(cursors);
    lemma_pairs_map_len(pairs);
    assert(shown.len() == cursors.len());
    let rows = app.rows();
    assert forall|i: int| 0 < i < rows.len() implies #[trigger] rows[i] == row_of(shown[i - 1]) by {}
    assert forall|i: int, j: int| 0 < i < j < rows.len() implies !before(
        (#[trigger] rows[j]).name,
        (#[trigger] rows[i]).name,
    ) by {
        assert(!before(shown[j - 1].name, shown[i - 1].name));
    }
    assert forall|who: ClientId| #[trigger] app.peers.contains_key(who) implies shown.contains(
        app.peers[who],
    ) by {
        lemma_pairs_map_dom(pairs, who);
        let k = choose|k: int| 0 <= k < pairs.len() && (#[trigger] pairs[k]).0 == who;
        lemma_pairs_map_at(pairs, k);
        assert(cursors[k] == app.peers[who]);
        assert(cursors.contains(app.peers[who]));
        assert(cursors.to_multiset().contains(app.peers[who])) by {
            cursors.to_multiset_ensures();
        }
        shown.to_multiset_ensures();
    }
    assert(shown.len() == app.peers.dom().len());
}

/// Cursors in order of their names are the same cursors, and none stands before
/// one whose name comes first. Those of the same name keep their order.
pub proof fn law_cursors_are_sorted_by_name(cursors: Seq<CursorView>, name: Seq<char>)
    ensures
        by_name(cursors).filter(|c: CursorView| c.name == name) == cursors.filter(
            |c: CursorView| c.name == name,
        ),
        by_name(cursors).to_multiset() == cursors.to_multiset(),
        forall|i: int, j: int|
            0 <= i < j < cursors.len() ==> !before(
                (#[trigger] by_name(cursors)[j]).name,
                (#[trigger] by_name(cursors)[i]).name,
            ),
{
    lemma_by_name(cursors);
    lemma_ties(cursors, name);
}

proof fn lemma_ties(cursors: Seq<CursorView>, name: Seq<char>)
    ensures
        by_name(cursors).filter(|c: CursorView| c.name == name) == cursors.filter(
            |c: CursorView| c.name == name,
        ),
    decreases cursors.len(),
{
    reveal(Seq::filter);
    if cursors.len() > 0 {
        lemma_ties(cursors.drop_last(), name);
        lemma_placed_last(by_name(cursors.drop_last()), cursors.last(), name);
    } else {
        assert(by_name(cursors) =~= cursors);
    }
}

proof fn lemma_placed_last(sorted: Seq<CursorView>, c: CursorView, name: Seq<char>)
    ensures
        placed(sorted, c).filter(|x: CursorView| x.name == name) == (if c.name == name {
            sorted.filter(|x: CursorView| x.name == name).push(c)
        } else {
            sorted.filter(|x: CursorView| x.name == name)
        }),
    decreases sorted.len(),
{
    reveal(Seq::filter);
    let all = placed(sorted, c);
    if sorted.len() == 0 || !before(c.name, sorted.last().name) {
        assert(all.drop_last() =~= sorted);
    } else {
        lemma_placed_last(sorted.drop_last(), c, name);
        assert(all.drop_last() =~= placed(sorted.drop_last(), c));
        lemma_before_total(c.name, sorted.last().name);
    }
}

proof fn lemma_by_name(cursors: Seq<CursorView>)
    ensures
        by_name(cursors).len() == cursors.len(),
        by_name(cursors).to_multiset() == cursors.to_multiset(),
        forall|i: int, j: int|
            0 <= i < j < cursors.len() ==> !before(
                (#[trigger] by_name(cursors)[j]).name,
                (#[trigger] by_name(cursors)[i]).name,
            ),
    decreases cursors.len(),
{
    if cursors.len() > 0 {
        let front = cursors.drop_last();
        lemma_by_name(front);
        lemma_placed_sorted(by_name(front), cursors.last());
        cursors.to_multiset_ensures();
        assert(cursors =~= front.push(cursors.last()));
        front.to_multiset_ensures();
    } else {
        assert(by_name(cursors) =~= cursors);
    }
}

proof fn lemma_placed_sorted(sorted: Seq<CursorView>, c: CursorView)
    requires
        forall|i: int, j: int|
            0 <= i < j < sorted.len() ==> !before(
                (#[trigger] sorted[j]).name,
                (#[trigger] sorted[i]).name,
            ),
    ensures
        placed(sorted, c).len() == sorted.len() + 1,
        placed(sorted, c).to_multiset() == sorted.to_multiset().insert(c),
        forall|i: int, j: int|
            0 <= i < j <= sorted.len() ==> !before(
                (#[trigger] placed(sorted, c)[j]).name,
                (#[trigger] placed(sorted, c)[i]).name,
            ),
        forall|k: int|
            0 <= k <= sorted.len() ==> (#[trigger] placed(sorted, c)[k]) == c || sorted.contains(
                placed(sorted, c)[k],
            ),
    decreases sorted.len(),
{
    let n = sorted.len() as int;
    let all = placed(sorted, c);
    if n == 0 || !before(c.name, sorted.last().name) {
        sorted.to_multiset_ensures();
        assert forall|i: int, j: int| 0 <= i < j <= n implies !before(
            (#[trigger] all[j]).name,
            (#[trigger] all[i]).name,
        ) by {
            if j == n {
                if i < n - 1 {
                    assert(!before(sorted[n - 1].name, sorted[i].name));
                    if before(c.name, sorted[i].name) {
                        lemma_before_total(sorted[i].name, sorted[n - 1].name);
                        if before(sorted[i].name, sorted[n - 1].name) {
                            lemma_before_transitive(
                                c.name,
                                sorted[i].name,
                                sorted[n - 1].name,
                            );
                        }
                    }
                }
            } else {
                assert(all[j] == sorted[j] && all[i] == sorted[i]);
            }
        }
    } else {
        let front = sorted.drop_last();
        let last = sorted.last();
        assert forall|i: int, j: int| 0 <= i < j < front.len() implies !before(
            (#[trigger] front[j]).name,
            (#[trigger] front[i]).name,
        ) by {
            assert(front[j] == sorted[j] && front[i] == sorted[i]);
        }
        lemma_placed_sorted(front, c);
        let part = placed(front, c);
        part.to_multiset_ensures();
        front.to_multiset_ensures();
        assert(sorted =~= front.push(last));
        assert(all.to_multiset() =~= sorted.to_multiset().insert(c));
        assert forall|i: int, j: int| 0 <= i < j <= n implies !before(
            (#[trigger] all[j]).name,
            (#[trigger] all[i]).name,
        ) by {
            if j == n {
                assert(all[i] == part[i]);
                if part[i] == c {
                    lemma_before_total(c.name, last.name);
                } else {
                    assert(front.contains(part[i]));
                    let m = choose|m: int| 0 <= m < front.len() && front[m] == part[i];
                    assert(!before(sorted[n - 1].name, sorted[m].name));
                }
            } else {
                assert(all[j] == part[j] && all[i] == part[i]);
            }
        }
        assert forall|k: int| 0 <= k <= n implies (#[trigger] all[k]) == c || sorted.contains(
            all[k],
        ) by {
            if k == n {
                assert(sorted[n - 1] == last);
            } else if part[k] != c {
                let m = choose|m: int| 0 <= m < front.len() && front[m] == part[k];
                assert(sorted[m] == all[k]);
            }
        }
    }
}

/// What is said of the connection, with a lamp that is green while it is up, red
/// while it is down and yellow in between.
pub proof fn law_the_connection_is_told(attempt: u32, reason: Seq<char>)
    ensures
        ConnectionView::Online.dot() == (Rgba { r: 0xa6, g: 0xe3, b: 0xa1, a: 255 }),
        ConnectionView::Handshaking.dot() == (Rgba { r: 0xf9, g: 0xe2, b: 0xaf, a: 255 }),
        (ConnectionView::Connecting { attempt }).dot() == ConnectionView::Handshaking.dot(),
        (ConnectionView::Offline { reason }).dot() == (Rgba {
            r: 0xf3,
            g: 0x8b,
            b: 0xa8,
            a: 255,
        }),
        ConnectionView::Online.words() == "online"@,
        ConnectionView::Handshaking.words() == "joining…"@,
        attempt <= 1 ==> (ConnectionView::Connecting { attempt }).words() == "connecting…"@,
        attempt > 1 ==> (ConnectionView::Connecting { attempt }).words() == "reconnecting (#"@
            + decimal(attempt as nat) + ")…"@,
        (ConnectionView::Offline { reason }).words() == "offline — "@ + reason,
{
}

} // verus!
