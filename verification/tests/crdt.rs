//! Replication: operations, merging and snapshots.

use weavedraw::codec::{decode, encode};
use weavedraw::crdt::{LamportClock, StrokeEntry, StrokeOp, StrokeSet, Timestamp};
use weavedraw::types::{ClientId, Point, Rgba, Scalar, Stroke};

fn scalar(x: f32) -> Scalar {
    Scalar::from_bits(x.to_bits())
}

fn point(x: f32, y: f32) -> Point {
    Point::new(scalar(x), scalar(y))
}

fn fresh() -> ClientId {
    uuid::Uuid::new_v4().as_u128()
}

fn peer() -> (ClientId, LamportClock) {
    let id = fresh();
    (id, LamportClock::new(id))
}

fn stroke(client: ClientId) -> Stroke {
    Stroke::new(client, Rgba::white(), scalar(4.0))
        .with_points(vec![point(0.0, 0.0), point(1.0, 1.0)])
}

fn ids(set: &StrokeSet) -> Vec<u128> {
    set.visible().iter().map(|s| s.id).collect()
}

#[test]
fn clock_ticks_are_strictly_increasing_and_observe_merges() {
    let (_, mut clock) = peer();
    let a = clock.tick();
    let b = clock.tick();
    assert!(b > a);
    clock.observe(Timestamp::new(100, fresh()));
    assert!(clock.tick().counter > 100);
}

#[test]
fn timestamps_are_totally_ordered_with_client_tiebreak() {
    let lo = 1;
    let hi = 2;
    assert!(Timestamp::new(1, hi) < Timestamp::new(2, lo));
    assert!(Timestamp::new(1, lo) < Timestamp::new(1, hi));
}

#[test]
fn add_then_remove_hides_stroke() {
    let (me, mut clock) = peer();
    let mut set = StrokeSet::new();
    let s = stroke(me);
    let id = s.id;
    assert!(set.apply(StrokeOp::Add {
        stroke: s,
        ts: clock.tick()
    }));
    assert_eq!(set.len(), 1);
    assert!(set.apply(StrokeOp::Remove {
        id,
        ts: clock.tick()
    }));
    assert_eq!(set.len(), 0);
    assert!(
        set.get_any(id).is_some(),
        "payload retained behind tombstone"
    );
}

#[test]
fn remove_arriving_before_add_still_wins_if_newer() {
    let (me, mut clock) = peer();
    let mut set = StrokeSet::new();
    let s = stroke(me);
    let add_ts = clock.tick();
    let rm_ts = clock.tick();
    assert!(!set.apply(StrokeOp::Remove {
        id: s.id,
        ts: rm_ts
    }));
    assert!(!set.apply(StrokeOp::Add {
        stroke: s,
        ts: add_ts
    }));
    assert!(set.is_empty());
    assert_eq!(set.tracked_len(), 1);
}

#[test]
fn re_add_after_remove_restores_stroke_at_new_position() {
    let (me, mut clock) = peer();
    let mut set = StrokeSet::new();
    let first = stroke(me);
    let second = stroke(me);
    let first_id = first.id;
    set.apply(StrokeOp::Add {
        stroke: first.clone(),
        ts: clock.tick(),
    });
    set.apply(StrokeOp::Add {
        stroke: second.clone(),
        ts: clock.tick(),
    });
    set.apply(StrokeOp::Remove {
        id: first_id,
        ts: clock.tick(),
    });
    // Undo the delete: re-add with a fresh timestamp.
    set.apply(StrokeOp::Add {
        stroke: first,
        ts: clock.tick(),
    });
    assert_eq!(
        ids(&set),
        vec![second.id, first_id],
        "re-added stroke draws on top"
    );
    assert_eq!(set.draw_order(), vec![second.id, first_id]);
}

#[test]
fn stale_add_does_not_resurrect() {
    let (me, mut clock) = peer();
    let mut set = StrokeSet::new();
    let s = stroke(me);
    let t1 = clock.tick();
    let t2 = clock.tick();
    set.apply(StrokeOp::Add {
        stroke: s.clone(),
        ts: t1,
    });
    set.apply(StrokeOp::Remove { id: s.id, ts: t2 });
    // A duplicate of the original add (e.g. redelivered) must not undo the remove.
    assert!(!set.apply(StrokeOp::Add { stroke: s, ts: t1 }));
    assert!(set.is_empty());
}

#[test]
fn ops_commute_and_are_idempotent() {
    let (a, mut ca) = peer();
    let (b, mut cb) = peer();
    let sa = stroke(a);
    let sb = stroke(b);
    let ops = vec![
        StrokeOp::Add {
            stroke: sa.clone(),
            ts: ca.tick(),
        },
        StrokeOp::Add {
            stroke: sb.clone(),
            ts: cb.tick(),
        },
        StrokeOp::Remove {
            id: sa.id,
            ts: cb.tick(),
        },
        StrokeOp::Add {
            stroke: sa.clone(),
            ts: {
                ca.observe(Timestamp::new(cb.now(), b));
                ca.tick()
            },
        },
    ];
    let reversed: Vec<StrokeOp> = ops.iter().rev().cloned().collect();

    let mut forward = StrokeSet::new();
    forward.apply_all(ops.clone());
    let mut backward = StrokeSet::new();
    backward.apply_all(reversed);
    let mut doubled = StrokeSet::new();
    doubled.apply_all(ops.clone());
    doubled.apply_all(ops);

    assert_eq!(ids(&forward), ids(&backward));
    assert_eq!(ids(&forward), ids(&doubled));
    assert_eq!(ids(&forward), vec![sb.id, sa.id]);
}

#[test]
fn merge_converges_both_directions() {
    let (a, mut ca) = peer();
    let (b, mut cb) = peer();
    let mut left = StrokeSet::new();
    let mut right = StrokeSet::new();
    let sa = stroke(a);
    let sb = stroke(b);
    left.apply(StrokeOp::Add {
        stroke: sa.clone(),
        ts: ca.tick(),
    });
    right.apply(StrokeOp::Add {
        stroke: sb.clone(),
        ts: cb.tick(),
    });
    right.apply(StrokeOp::Remove {
        id: sa.id,
        ts: cb.tick(),
    });

    let mut lr = left.clone();
    lr.merge(right.clone());
    let mut rl = right.clone();
    rl.merge(left.clone());

    assert_eq!(ids(&lr), ids(&rl));
    assert_eq!(ids(&lr), vec![sb.id]);
}

#[test]
fn inverse_ops_round_trip() {
    let (me, mut clock) = peer();
    let mut set = StrokeSet::new();
    let s = stroke(me);
    let add = StrokeOp::Add {
        stroke: s.clone(),
        ts: clock.tick(),
    };
    set.apply(add.clone());

    let undo = set.inverse(&add, clock.tick()).unwrap();
    assert!(matches!(undo, StrokeOp::Remove { id, .. } if id == s.id));
    set.apply(undo.clone());
    assert!(set.is_empty());

    let redo = set.inverse(&undo, clock.tick()).unwrap();
    assert!(matches!(&redo, StrokeOp::Add { stroke, .. } if *stroke == s));
    set.apply(redo);
    assert_eq!(set.len(), 1);
}

#[test]
fn clear_ops_tombstone_everything_visible() {
    let (me, mut clock) = peer();
    let mut set = StrokeSet::new();
    for _ in 0..3 {
        set.apply(StrokeOp::Add {
            stroke: stroke(me),
            ts: clock.tick(),
        });
    }
    let ops = set.clear_ops(&mut clock);
    assert_eq!(ops.len(), 3);
    set.apply_all(ops);
    assert!(set.is_empty());
    assert_eq!(set.tracked_len(), 3);
}

#[test]
fn latest_timestamp_covers_tombstones() {
    let (me, mut clock) = peer();
    let mut set = StrokeSet::new();
    let s = stroke(me);
    set.apply(StrokeOp::Add {
        stroke: s.clone(),
        ts: clock.tick(),
    });
    let rm = clock.tick();
    set.apply(StrokeOp::Remove { id: s.id, ts: rm });
    assert_eq!(set.latest_timestamp(), Some(rm));
}

#[test]
fn serde_round_trip_rebuilds_draw_order() {
    let (me, mut clock) = peer();
    let mut set = StrokeSet::new();
    let mut expected = Vec::new();
    for _ in 0..5 {
        let s = stroke(me);
        expected.push(s.id);
        set.apply(StrokeOp::Add {
            stroke: s,
            ts: clock.tick(),
        });
    }
    set.apply(StrokeOp::Remove {
        id: expected.remove(2),
        ts: clock.tick(),
    });

    let bytes = encode(&set).unwrap();
    let restored: StrokeSet = decode(&bytes).unwrap();
    assert_eq!(ids(&restored), expected);
    assert_eq!(restored.tracked_len(), 5);
    assert!(restored == set);
}

// ---- beyond the basics ------------------------------------------------------

fn named(id: u128, client: ClientId) -> Stroke {
    Stroke::with_id(id, client, Rgba::black(), scalar(1.0)).with_points(vec![point(0.0, 0.0)])
}

fn add(id: u128, counter: u64) -> StrokeOp {
    StrokeOp::Add {
        stroke: named(id, 7),
        ts: Timestamp::new(counter, 7),
    }
}

fn remove(id: u128, counter: u64) -> StrokeOp {
    StrokeOp::Remove {
        id,
        ts: Timestamp::new(counter, 7),
    }
}

fn replica(ops: Vec<StrokeOp>) -> StrokeSet {
    let mut set = StrokeSet::new();
    set.apply_all(ops);
    set
}

#[test]
fn every_order_of_operations_converges() {
    let ops = vec![add(1, 1), remove(1, 4), add(2, 2), remove(2, 1), add(1, 5)];
    let want = replica(ops.clone());
    assert_eq!(ids(&want), vec![2, 1]);
    for shift in 0..ops.len() {
        let mut turned = ops.clone();
        turned.rotate_left(shift);
        let set = replica(turned.clone());
        assert!(set == want);
        assert_eq!(ids(&set), ids(&want));
        turned.reverse();
        turned.extend(ops.clone());
        assert_eq!(ids(&replica(turned)), ids(&want));
    }
}

#[test]
fn the_impossible_tie_goes_to_the_remove() {
    let set = replica(vec![add(1, 3), remove(1, 3)]);
    assert!(set.is_empty());
    assert!(!set.contains(1));
}

#[test]
fn merge_is_commutative_associative_and_idempotent() {
    let a = replica(vec![add(1, 1), add(2, 2)]);
    let b = replica(vec![remove(1, 3), add(3, 4)]);
    let c = replica(vec![add(1, 5), remove(3, 6)]);
    let join = |x: &StrokeSet, y: &StrokeSet| {
        let mut z = x.clone();
        z.merge(y.clone());
        z
    };
    assert!(join(&a, &b) == join(&b, &a));
    assert!(join(&join(&a, &b), &c) == join(&a, &join(&b, &c)));
    assert!(join(&a, &a) == a);
    assert_eq!(ids(&join(&join(&a, &b), &c)), vec![2, 1]);
}

#[test]
fn merge_counts_elements_whose_visibility_changed() {
    // The other replica drew and erased the stroke: it was never visible here
    // and is not afterwards.
    let mut here = StrokeSet::new();
    assert_eq!(here.merge(replica(vec![add(1, 1), remove(1, 2)])), 0);
    assert_eq!(here.tracked_len(), 1);
    assert_eq!(here.merge(replica(vec![add(2, 3), add(3, 4)])), 2);
    assert_eq!(here.merge(replica(vec![remove(2, 5)])), 1);
    let outcome = here.absorb(replica(vec![add(4, 6), remove(4, 7)]));
    assert_eq!((outcome.toggled, outcome.changes), (0, 2));
}

#[test]
fn apply_all_counts_visible_changes_and_news() {
    let mut set = StrokeSet::new();
    assert_eq!(set.apply_all(vec![add(1, 1), add(1, 1), remove(1, 2)]), 2);
    assert_eq!(
        set.apply_all_tracked(vec![remove(9, 1)]),
        (true, 0),
        "a tombstone is news even where nothing visible changed"
    );
    assert_eq!(set.apply_all_tracked(vec![remove(9, 1)]), (false, 0));
    assert_eq!(set.apply_tracked(add(9, 2)), (true, true));
}

#[test]
fn clear_ops_for_spares_other_peers() {
    let mut clock = LamportClock::new(7);
    let mut set = StrokeSet::new();
    for (id, client) in [(1, 7), (2, 8), (3, 7)] {
        set.apply(StrokeOp::Add {
            stroke: named(id, client),
            ts: clock.tick(),
        });
    }
    let ops = set.clear_ops_for(7, &mut clock);
    assert_eq!(
        ops,
        vec![remove(1, 4), remove(3, 5)],
        "one remove each, stamped in turn"
    );
    set.apply_all(ops);
    assert_eq!(ids(&set), vec![2]);
    assert_eq!(clock.now(), 5);
}

#[test]
fn undoing_a_remove_needs_the_payload() {
    let set = replica(vec![remove(1, 1)]);
    assert_eq!(set.inverse(&remove(1, 1), Timestamp::new(2, 7)), None);
    assert!(set.get_any(1).is_none());
}

#[test]
fn repeated_elements_of_a_snapshot_are_folded_in() {
    let older = replica(vec![add(1, 1)]).into_entries();
    let newer = replica(vec![add(1, 3), remove(1, 2)]).into_entries();
    let mut both: Vec<(u128, StrokeEntry)> = older;
    both.extend(newer);
    let set = StrokeSet::from(both);
    assert_eq!(set.tracked_len(), 1);
    assert_eq!(set.visible_with_ts()[0].0, Timestamp::new(3, 7));
    assert_eq!(set.latest_timestamp(), Some(Timestamp::new(3, 7)));
}

#[test]
fn an_empty_set_knows_no_time() {
    let set = StrokeSet::default();
    assert_eq!(set.latest_timestamp(), None);
    assert!(set.entries().is_empty());
    assert!(!StrokeEntry::default().is_visible());
    assert_eq!(set.get(1), None);
}

#[test]
fn observing_makes_the_next_tick_newer() {
    let mut clock = LamportClock::new(1);
    let seen = Timestamp::new(41, u128::MAX);
    clock.observe(seen);
    clock.observe(Timestamp::new(3, 9));
    assert_eq!(clock.now(), 41);
    let tick = clock.tick();
    assert!(tick.is_after(seen) && tick > seen);
    assert_eq!((tick.counter, tick.client, clock.client()), (42, 1, 1));
}

#[test]
fn a_change_is_reported_exactly_where_the_drawing_changes() {
    let mut set = replica(vec![add(1, 1), add(2, 2), remove(3, 9)]);
    let drawn = |set: &StrokeSet| -> Vec<(Timestamp, u128)> {
        set.visible_with_ts().iter().map(|(ts, s)| (*ts, s.id)).collect()
    };
    for (op, changes) in [
        (add(1, 1), false),
        (add(1, 5), true),
        (remove(1, 4), false),
        (add(3, 6), false),
        (add(3, 10), true),
        (remove(2, 7), true),
        (remove(2, 8), false),
    ] {
        let before = drawn(&set);
        assert_eq!(set.apply(op), changes);
        assert_eq!(drawn(&set) != before, changes);
    }
    assert_eq!(ids(&set), vec![1, 3]);
}

#[test]
fn a_stroke_that_comes_back_is_on_top() {
    let mut set = replica(vec![add(1, 1), add(2, 2), add(3, 3), remove(1, 4)]);
    let back = set.inverse(&remove(1, 4), Timestamp::new(5, 9)).expect("known");
    assert!(set.apply(back));
    assert_eq!(ids(&set), vec![2, 3, 1]);
    let gone = set.inverse(&add(3, 3), Timestamp::new(6, 9)).expect("an add can be undone");
    assert!(set.apply(gone));
    assert_eq!(ids(&set), vec![2, 1]);
}

#[test]
fn clearing_reports_one_change_for_each_stroke() {
    let mut set = replica(vec![add(1, 1), add(2, 2), add(3, 3), remove(2, 4)]);
    let mut clock = LamportClock::new(8);
    clock.observe(Timestamp::new(4, 7));
    let ops = set.clear_ops(&mut clock);
    assert_eq!(set.apply_all(ops), 2);
    assert!(set.is_empty());
    assert_eq!(set.tracked_len(), 3);
}

#[test]
fn one_client_can_be_cleared_under_the_clock_of_another() {
    let mut set = StrokeSet::new();
    for (id, client) in [(1, 7), (2, 8), (3, 7), (4, 9)] {
        set.apply(StrokeOp::Add {
            stroke: named(id, client),
            ts: Timestamp::new(id as u64, client),
        });
    }
    let mut clock = LamportClock::new(8);
    clock.observe(Timestamp::new(4, 9));
    let ops = set.clear_ops_for(7, &mut clock);
    assert!(ops.iter().all(|op| op.timestamp().client == 8));
    assert_eq!(set.apply_all(ops), 2);
    assert_eq!(ids(&set), vec![2, 4], "in the same order");
}

#[test]
fn a_list_is_drawn_once_for_each_element() {
    // The first payload stands under another id than its own.
    let entry = |id: u128, counter: u64, removed: Option<u64>| StrokeEntry {
        add: Some(weavedraw::crdt::Added {
            ts: Timestamp::new(counter, 7),
            stroke: named(id, 7),
        }),
        removed: removed.map(|at| Timestamp::new(at, 7)),
    };
    let set = StrokeSet::from(vec![
        (5, entry(1, 4, None)),
        (2, entry(2, 3, None)),
        (3, entry(3, 1, Some(2))),
        (2, entry(2, 6, None)),
    ]);
    let stamps: Vec<u64> = set.visible_with_ts().iter().map(|(ts, _)| ts.counter).collect();
    assert_eq!(stamps, vec![4, 6]);
    assert_eq!(set.len(), 2);
    assert_eq!(set.draw_order(), vec![5, 2]);
}

#[test]
fn operations_seen_before_change_nothing() {
    let ops = vec![add(1, 1), add(2, 2), remove(1, 3), add(1, 4), remove(9, 5)];
    let mut set = replica(ops.clone());
    let before = set.clone();
    let again = [vec![ops[3].clone(), ops[0].clone()], ops.clone(), ops].concat();
    assert_eq!(set.apply_all_tracked(again), (false, 0));
    assert!(set.matches(&before));
    assert_eq!(ids(&set), vec![2, 1]);
}
