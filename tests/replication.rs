use corrosion::bookie::{Bookie, KnownVersion};
use corrosion::frame::encode_frame;
use corrosion::ingest::{
    handle_payload, handle_broadcast, is_known, process_msg, ApplyOutcome, PayloadAction,
    PayloadKind,
};
use corrosion::types::{ActorId, Changeset, Message, RowChange, SqlValue, Timestamp};
use corrosion::write::{execute_status, make_broadcastable_changes, record_local_write, ChangeError};

const A: ActorId = ActorId(0xa);
const B: ActorId = ActorId(0xb);

fn insert_change(id: u8, text: &str, db_version: u64) -> RowChange {
    RowChange {
        table: b"tests".to_vec(),
        pk: vec![1, 9, id],
        cid: b"text".to_vec(),
        val: SqlValue::Text(text.as_bytes().to_vec()),
        col_version: 1,
        db_version,
        site_id: ActorId(0),
    }
}

fn local_write(bookie: &mut Bookie, start: u64, changes: Vec<RowChange>, ts: u64) -> Option<Message> {
    let plan = make_broadcastable_changes(bookie, A, start, changes.len() as i64, 300, &changes).ok().unwrap();
    record_local_write(bookie, A, plan, Timestamp(ts))
}

#[test]
fn first_insert_is_version_one() {
    let mut bookie = Bookie::new();
    let changes = vec![insert_change(1, "hello", 1)];
    let plan = make_broadcastable_changes(&bookie, A, 0, 1, 300, &changes).ok().unwrap();
    assert_eq!(plan.version, 1);
    assert_eq!(plan.db_version, Some(1));
    assert!(plan.changes.iter().all(|c| c.site_id == A));
    let msg = record_local_write(&mut bookie, A, plan, Timestamp(7)).unwrap();
    let mut expected = insert_change(1, "hello", 1);
    expected.site_id = A;
    assert_eq!(
        msg,
        Message::Change {
            actor_id: A,
            version: 1,
            changeset: Changeset::Full { changes: vec![expected], ts: Timestamp(7) },
            ts: Timestamp(7),
        }
    );
    assert_eq!(bookie.last(A), Some(1));
    assert!(bookie.contains(A, 1));
}

#[test]
fn local_versions_are_consecutive() {
    let mut bookie = Bookie::new();
    for (i, v) in (1..=4u64).enumerate() {
        let msg = local_write(&mut bookie, i as u64, vec![insert_change(v as u8, "x", v)], v).unwrap();
        match msg {
            Message::Change { version, .. } => assert_eq!(version, v),
            _ => panic!("a local write broadcasts a change"),
        }
    }
    assert_eq!(bookie.last(A), Some(4));
}

#[test]
fn db_version_is_the_highest_of_the_changes() {
    let bookie = Bookie::new();
    let changes = vec![insert_change(1, "a", 6), insert_change(2, "b", 9), insert_change(3, "c", 7)];
    let plan = make_broadcastable_changes(&bookie, A, 5, 3, 300, &changes).ok().unwrap();
    assert_eq!(plan.db_version, Some(9));
    assert_eq!(plan.changes.len(), 3);
}

#[test]
fn empty_write_is_neither_booked_nor_broadcast() {
    let mut bookie = Bookie::new();
    local_write(&mut bookie, 0, vec![insert_change(1, "hello", 1)], 1).unwrap();
    let plan = make_broadcastable_changes(&bookie, A, 1, 0, 300, &vec![]).ok().unwrap();
    assert_eq!(plan.db_version, None);
    assert_eq!(plan.version, 2);
    assert_eq!(record_local_write(&mut bookie, A, plan, Timestamp(2)), None);
    assert_eq!(bookie.last(A), Some(1));
    assert!(!bookie.contains(A, 2));
}

#[test]
fn too_many_rows_impacted_is_refused() {
    let bookie = Bookie::new();
    let changes = vec![insert_change(1, "a", 1)];
    assert!(matches!(
        make_broadcastable_changes(&bookie, A, 0, 301, 300, &changes),
        Err(ChangeError::TooManyRowsImpacted)
    ));
    assert!(make_broadcastable_changes(&bookie, A, 0, 300, 300, &changes).is_ok());
    assert_eq!(bookie.last(A), None);
}

fn remote(version: u64, changes: Vec<RowChange>) -> Message {
    Message::Change {
        actor_id: A,
        version,
        changeset: Changeset::Full { changes, ts: Timestamp(version) },
        ts: Timestamp(version),
    }
}

#[test]
fn ingestion_is_idempotent() {
    let mut bookie = Bookie::new();
    let msg = remote(1, vec![insert_change(1, "hello", 1)]);
    let applied = ApplyOutcome { start_db_version: 0, impacts: vec![1], end_db_version: 1 };
    assert!(!is_known(&bookie, &msg));
    let (again, processed) = process_msg(&mut bookie, msg.clone(), &applied).unwrap();
    assert_eq!(again, msg);
    assert_eq!(processed.db_version, Some(1));
    assert_eq!(processed.impactful.len(), 1);
    assert!(is_known(&bookie, &msg));
    assert!(process_msg(&mut bookie, msg.clone(), &applied).is_none());
    assert_eq!(bookie.last(A), Some(1));
    assert_eq!(bookie.actors[0].1.entries, vec![(1, KnownVersion::Current { db_version: 1, ts: Timestamp(1) })]);
}

#[test]
fn only_impactful_changes_reach_observers() {
    let mut bookie = Bookie::new();
    let msg = remote(2, vec![insert_change(1, "a", 1), insert_change(2, "b", 2), insert_change(3, "c", 3)]);
    let applied = ApplyOutcome { start_db_version: 4, impacts: vec![1, 0, 2], end_db_version: 6 };
    let (again, processed) = process_msg(&mut bookie, msg.clone(), &applied).unwrap();
    assert_eq!(again, msg);
    assert_eq!(processed.db_version, Some(6));
    assert_eq!(processed.impactful, vec![insert_change(1, "a", 1), insert_change(3, "c", 3)]);
}

#[test]
fn change_without_effect_is_booked_cleared() {
    let mut bookie = Bookie::new();
    let msg = remote(3, vec![insert_change(1, "a", 1)]);
    let applied = ApplyOutcome { start_db_version: 4, impacts: vec![0], end_db_version: 4 };
    let (_, processed) = process_msg(&mut bookie, msg, &applied).unwrap();
    assert_eq!(processed.db_version, None);
    assert!(processed.impactful.is_empty());
    assert_eq!(bookie.actors[0].1.get(3), Some(KnownVersion::Cleared));
}

#[test]
fn subscription_messages_pass_through() {
    let mut bookie = Bookie::new();
    let msg = Message::UpsertSubscription { actor_id: B, id: b"s".to_vec(), filter: vec![], ts: Timestamp(1) };
    let applied = ApplyOutcome { start_db_version: 0, impacts: vec![], end_db_version: 0 };
    assert!(!is_known(&bookie, &msg));
    let (again, processed) = process_msg(&mut bookie, msg.clone(), &applied).unwrap();
    assert_eq!(again, msg);
    assert_eq!(processed.db_version, None);
    assert!(bookie.actors.is_empty());
}

#[test]
fn partitioned_node_catches_up() {
    let mut writer = Bookie::new();
    let mut sent = vec![];
    for v in 1..=5u64 {
        sent.push(local_write(&mut writer, v - 1, vec![insert_change(v as u8, "x", v)], v).unwrap());
    }
    let mut reader = Bookie::new();
    for (i, msg) in sent.into_iter().enumerate() {
        let applied = ApplyOutcome { start_db_version: i as u64, impacts: vec![1], end_db_version: i as u64 + 1 };
        assert!(process_msg(&mut reader, msg, &applied).is_some());
    }
    assert_eq!(reader.last(A), Some(5));
    let sync = corrosion::sync::generate_sync(&reader, B);
    assert_eq!(sync.need_len_for_actor(A), 0);
}

#[test]
fn payload_kinds_from_the_first_byte() {
    assert_eq!(PayloadKind::from_byte(0), PayloadKind::Swim);
    assert_eq!(PayloadKind::from_byte(1), PayloadKind::Broadcast);
    assert_eq!(PayloadKind::from_byte(2), PayloadKind::PriorityBroadcast);
    assert_eq!(PayloadKind::from_byte(9), PayloadKind::Unknown(9));
    assert_eq!(PayloadKind::Unknown(9).to_byte(), 9);
    assert_eq!(PayloadKind::PriorityBroadcast.to_byte(), 2);
    assert_eq!(PayloadKind::PriorityBroadcast.name(), "priority-broadcast");
    assert_eq!(PayloadKind::Swim.name(), "swim");
    assert_eq!(PayloadKind::Unknown(3).name(), "unknown");
    assert!(matches!(handle_payload(None, &[0, 5, 6]), PayloadAction::Swim { start: 1 }));
    assert!(matches!(handle_payload(None, &[1]), PayloadAction::Broadcast { priority: false, start: 1 }));
    assert!(matches!(handle_payload(None, &[2, 0]), PayloadAction::Broadcast { priority: true, start: 1 }));
    assert!(matches!(handle_payload(None, &[7]), PayloadAction::Drop { kind: Some(PayloadKind::Unknown(7)) }));
    assert!(matches!(handle_payload(None, &[]), PayloadAction::Drop { kind: None }));
    assert!(matches!(handle_payload(Some(PayloadKind::Broadcast), &[0, 0]), PayloadAction::Broadcast { priority: false, start: 0 }));
}

#[test]
fn broadcast_forwards_only_new_foreign_messages() {
    let mut bookie = Bookie::new();
    bookie.add(B, 1, KnownVersion::Cleared);
    let known = Message::Change { actor_id: B, version: 1, changeset: Changeset::Cleared, ts: Timestamp(1) };
    let fresh = Message::Change { actor_id: B, version: 2, changeset: Changeset::Cleared, ts: Timestamp(2) };
    let own = Message::Change { actor_id: A, version: 1, changeset: Changeset::Cleared, ts: Timestamp(3) };
    let own_sub = Message::UpsertSubscription { actor_id: A, id: b"s".to_vec(), filter: vec![], ts: Timestamp(4) };
    let other_sub = Message::UpsertSubscription { actor_id: B, id: b"t".to_vec(), filter: vec![], ts: Timestamp(5) };
    let mut buf = vec![];
    for m in [&known, &fresh, &own, &own_sub, &other_sub] {
        encode_frame(&mut buf, m).unwrap();
    }
    let out = handle_broadcast(&buf, A, &bookie);
    assert_eq!(out.forward, vec![fresh, other_sub]);
    assert_eq!(out.consumed, buf.len());
    assert_eq!(out.error, None);
}

#[test]
fn cluster_converges_whatever_the_order() {
    // 4 writers, 50 writes each, ingested by 10 nodes in different orders.
    let writers: Vec<ActorId> = (1..=4u128).map(ActorId).collect();
    let mut sent = vec![];
    for w in &writers {
        let mut own = Bookie::new();
        for v in 1..=50u64 {
            let changes = vec![insert_change((v % 200) as u8, "x", v)];
            let plan = make_broadcastable_changes(&own, *w, v - 1, 1, 300, &changes).ok().unwrap();
            sent.push(record_local_write(&mut own, *w, plan, Timestamp(v)).unwrap());
        }
    }
    assert_eq!(sent.len(), 200);
    let mut summaries = vec![];
    for node in 0..10usize {
        let mut order: Vec<usize> = (0..sent.len()).collect();
        order.rotate_left(node * 17 % sent.len());
        if node % 2 == 1 {
            order.reverse();
        }
        let mut bookie = Bookie::new();
        for (n, i) in order.iter().enumerate() {
            let applied = ApplyOutcome { start_db_version: n as u64, impacts: vec![1], end_db_version: n as u64 + 1 };
            assert!(process_msg(&mut bookie, sent[*i].clone(), &applied).is_some());
        }
        // a second delivery of everything changes nothing
        for m in &sent {
            let applied = ApplyOutcome { start_db_version: 0, impacts: vec![1], end_db_version: 1 };
            assert!(process_msg(&mut bookie, m.clone(), &applied).is_none());
        }
        let sync = corrosion::sync::generate_sync(&bookie, ActorId(100 + node as u128));
        for w in &writers {
            assert_eq!(bookie.last(*w), Some(50));
            assert_eq!(sync.need_len_for_actor(*w), 0);
        }
        let mut heads = sync.heads.clone();
        heads.sort_by_key(|h| h.0 .0);
        summaries.push(heads);
    }
    for s in &summaries {
        assert_eq!(s, &summaries[0]);
    }
}

#[test]
fn write_request_statuses() {
    assert_eq!(execute_status(0, None), 400);
    assert_eq!(execute_status(2, None), 200);
    assert_eq!(execute_status(1, Some(&ChangeError::TooManyRowsImpacted)), 400);
    assert_eq!(execute_status(1, Some(&ChangeError::Rusqlite("locked".to_string()))), 500);
    assert_eq!(execute_status(1, Some(&ChangeError::ConnAcquisition("timeout".to_string()))), 500);
}
