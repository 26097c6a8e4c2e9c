use corrosion::members::{
    filter_bootstrap, handle_notification, sync_candidates, Actor, MemberEvent, Members,
    Notification, PeerAddr,
};
use corrosion::sync::{
    after_sync_attempt, check_sync_status, message_op_count, SyncClientError, SyncStep,
    MAX_SYNC_RETRIES,
};
use corrosion::types::{ActorId, Changeset, Message, RowChange, SqlValue, Timestamp};
use corrosion::wire::MessageDecodeError;

fn v4(last: u8, port: u16) -> PeerAddr {
    PeerAddr::V4 { ip: 0x0a00_0000 | last as u32, port }
}

fn actor(n: u128) -> Actor {
    Actor { id: ActorId(n), addr: v4(n as u8, 8787) }
}

#[test]
fn members_come_up_and_go_down() {
    let mut members = Members::new();
    let up = handle_notification(&mut members, &Notification::MemberUp(actor(1)));
    assert_eq!(up.event, Some(MemberEvent::Up(actor(1))));
    assert_eq!(up.cluster_size, Some(1));
    let up2 = handle_notification(&mut members, &Notification::MemberUp(actor(2)));
    assert_eq!(up2.cluster_size, Some(2));
    let again = handle_notification(&mut members, &Notification::MemberUp(actor(1)));
    assert_eq!(again.event, None);
    assert_eq!(again.cluster_size, None);
    assert_eq!(members.len(), 2);
    let down = handle_notification(&mut members, &Notification::MemberDown(actor(1)));
    assert_eq!(down.event, Some(MemberEvent::Down(actor(1))));
    assert_eq!(down.cluster_size, Some(1));
    let gone = handle_notification(&mut members, &Notification::MemberDown(actor(1)));
    assert_eq!(gone.event, None);
    let last = handle_notification(&mut members, &Notification::MemberDown(actor(2)));
    assert_eq!(last.event, Some(MemberEvent::Down(actor(2))));
    assert_eq!(last.cluster_size, None);
    assert_eq!(members.len(), 0);
}

#[test]
fn other_notifications_change_nothing() {
    let mut members = Members::new();
    handle_notification(&mut members, &Notification::MemberUp(actor(1)));
    for n in [Notification::Active, Notification::Idle, Notification::Defunct, Notification::Rejoin(actor(3))] {
        let e = handle_notification(&mut members, &n);
        assert_eq!(e.event, None);
        assert_eq!(e.cluster_size, None);
    }
    assert_eq!(members.states, vec![(ActorId(1), v4(1, 8787))]);
}

#[test]
fn member_address_is_updated() {
    let mut members = Members::new();
    assert!(members.add_member(&actor(1)));
    let moved = Actor { id: ActorId(1), addr: v4(9, 1) };
    assert!(!members.add_member(&moved));
    assert_eq!(members.states, vec![(ActorId(1), v4(9, 1))]);
    assert!(members.remove_member(&moved));
    assert!(!members.remove_member(&moved));
}

#[test]
fn sync_candidates_exclude_self() {
    let mut members = Members::new();
    for n in 1..=3 {
        members.add_member(&actor(n));
    }
    let c = sync_candidates(&members, ActorId(2));
    assert_eq!(c, vec![(ActorId(1), v4(1, 8787)), (ActorId(3), v4(3, 8787))]);
    assert!(sync_candidates(&Members::new(), ActorId(2)).is_empty());
}

#[test]
fn bootstrap_addresses_are_filtered() {
    let ours = v4(1, 8787);
    let v6 = PeerAddr::V6 { ip6: 1, port: 8787 };
    let addrs = vec![ours, v4(2, 8787), v6, v4(2, 8787), v4(1, 9000), v4(3, 1)];
    assert_eq!(filter_bootstrap(ours, &addrs), vec![v4(2, 8787), v4(1, 9000), v4(3, 1)]);
    assert_eq!(filter_bootstrap(v6, &addrs), vec![]);
    assert_eq!(filter_bootstrap(ours, &vec![]), vec![]);
}

#[test]
fn sync_status_codes() {
    assert!(check_sync_status(200).is_ok());
    assert!(matches!(check_sync_status(503), Err(SyncClientError::Unavailable)));
    assert!(matches!(check_sync_status(500), Err(SyncClientError::Status(500))));
    assert!(matches!(check_sync_status(404), Err(SyncClientError::Status(404))));
}

#[test]
fn unavailable_is_the_only_retriable_error() {
    assert!(SyncClientError::Unavailable.is_unavailable());
    for e in [
        SyncClientError::RequestTimedOut,
        SyncClientError::NoGoodCandidate,
        SyncClientError::Status(500),
        SyncClientError::Io("reset".to_string()),
        SyncClientError::Rusqlite("locked".to_string()),
        SyncClientError::Serde("bad".to_string()),
        SyncClientError::Hyper("closed".to_string()),
        SyncClientError::Pool("timeout".to_string()),
        SyncClientError::Decoded(MessageDecodeError::Malformed),
    ] {
        assert!(!e.is_unavailable());
    }
}

#[test]
fn sync_cycle_steps() {
    assert!(matches!(after_sync_attempt(Ok(12), 5), SyncStep::Done(12)));
    let mut left = MAX_SYNC_RETRIES;
    let mut tries = 0;
    loop {
        match after_sync_attempt(Err(SyncClientError::Unavailable), left) {
            SyncStep::Retry { retries_left } => {
                assert_eq!(retries_left, left - 1);
                left = retries_left;
                tries += 1;
            }
            SyncStep::GiveUp(e) => {
                assert!(e.is_unavailable());
                break;
            }
            SyncStep::Done(_) => panic!("a failed attempt is not done"),
        }
    }
    assert_eq!(tries, 5);
    assert!(matches!(
        after_sync_attempt(Err(SyncClientError::RequestTimedOut), 5),
        SyncStep::GiveUp(SyncClientError::RequestTimedOut)
    ));
}

#[test]
fn operation_counts() {
    let change = RowChange {
        table: b"t".to_vec(),
        pk: vec![1],
        cid: b"c".to_vec(),
        val: SqlValue::Null,
        col_version: 1,
        db_version: 1,
        site_id: ActorId(1),
    };
    let full = Message::Change {
        actor_id: ActorId(1),
        version: 1,
        changeset: Changeset::Full { changes: vec![change.clone(), change], ts: Timestamp(1) },
        ts: Timestamp(1),
    };
    assert_eq!(message_op_count(&full), 2);
    let cleared = Message::Change { actor_id: ActorId(1), version: 2, changeset: Changeset::Cleared, ts: Timestamp(1) };
    assert_eq!(message_op_count(&cleared), 0);
    let sub = Message::UpsertSubscription { actor_id: ActorId(1), id: vec![], filter: vec![], ts: Timestamp(1) };
    assert_eq!(message_op_count(&sub), 1);
}
