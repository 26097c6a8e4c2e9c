use corrosion::bookie::{Booked, Bookie, KnownVersion};
use corrosion::members::PeerAddr;
use corrosion::sync::{choose_sync_peer, generate_sync, versions_to_send};
use corrosion::types::{ActorId, Timestamp};

fn current(db_version: u64) -> KnownVersion {
    KnownVersion::Current { db_version, ts: Timestamp(db_version) }
}

#[test]
fn booked_tracks_versions_in_order() {
    let mut b = Booked::new();
    assert_eq!(b.last(), None);
    assert!(!b.contains(1));
    b.insert(5, current(50));
    b.insert(1, current(10));
    b.insert(3, KnownVersion::Cleared);
    assert!(b.contains(1) && b.contains(3) && b.contains(5));
    assert!(!b.contains(2) && !b.contains(4));
    assert_eq!(b.last(), Some(5));
    assert_eq!(b.get(3), Some(KnownVersion::Cleared));
    let keys: Vec<u64> = b.entries.iter().map(|e| e.0).collect();
    assert_eq!(keys, vec![1, 3, 5]);
}

#[test]
fn partial_versions_upgrade_but_never_downgrade() {
    let mut b = Booked::new();
    b.insert(2, KnownVersion::Partial { start: 0, end: 3 });
    b.insert(2, current(7));
    assert_eq!(b.get(2), Some(current(7)));
    b.insert(2, KnownVersion::Partial { start: 0, end: 1 });
    assert_eq!(b.get(2), Some(current(7)));
    b.insert(2, KnownVersion::Cleared);
    assert_eq!(b.get(2), Some(current(7)));
    assert_eq!(b.entries.len(), 1);
}

#[test]
fn need_is_the_gaps_up_to_head() {
    let mut b = Booked::new();
    for v in [1u64, 2, 5, 8] {
        b.insert(v, current(v));
    }
    assert_eq!(b.need(10), vec![(3, 4), (6, 7), (9, 10)]);
    assert_eq!(b.need(8), vec![(3, 4), (6, 7)]);
    assert_eq!(b.need(4), vec![(3, 4)]);
    assert_eq!(b.need(2), vec![]);
    assert_eq!(b.need(0), vec![]);
    assert_eq!(Booked::new().need(3), vec![(1, 3)]);
}

#[test]
fn need_at_the_largest_head() {
    let mut b = Booked::new();
    b.insert(u64::MAX, current(1));
    b.insert(1, current(1));
    assert_eq!(b.need(u64::MAX), vec![(2, u64::MAX - 1)]);
}

#[test]
fn bookie_keeps_actors_apart() {
    let a = ActorId(1);
    let c = ActorId(2);
    let mut bookie = Bookie::new();
    assert!(!bookie.contains(a, 1));
    assert_eq!(bookie.last(a), None);
    bookie.add(a, 1, current(1));
    bookie.add(a, 2, current(2));
    bookie.add(c, 4, KnownVersion::Cleared);
    assert!(bookie.contains(a, 1) && bookie.contains(a, 2));
    assert!(!bookie.contains(c, 1));
    assert_eq!(bookie.last(a), Some(2));
    assert_eq!(bookie.last(c), Some(4));
    assert_eq!(bookie.actors.len(), 2);
}

#[test]
fn sync_summary_lists_heads_and_needs() {
    let a = ActorId(1);
    let c = ActorId(2);
    let mut bookie = Bookie::new();
    bookie.add(a, 1, current(1));
    bookie.add(a, 4, current(2));
    bookie.add(c, 2, current(3));
    let sync = generate_sync(&bookie, ActorId(9));
    assert_eq!(sync.actor_id, ActorId(9));
    assert_eq!(sync.heads, vec![(a, 4), (c, 2)]);
    assert_eq!(sync.need, vec![(a, vec![(2, 3)]), (c, vec![(1, 1)])]);
    assert_eq!(sync.need_len_for_actor(a), 2);
    assert_eq!(sync.need_len_for_actor(c), 1);
    assert_eq!(sync.need_len_for_actor(ActorId(3)), 0);
}

#[test]
fn caught_up_node_needs_nothing() {
    let a = ActorId(1);
    let mut bookie = Bookie::new();
    for v in 1..=5u64 {
        bookie.add(a, v, current(v));
    }
    let sync = generate_sync(&bookie, ActorId(2));
    assert_eq!(sync.heads, vec![(a, 5)]);
    assert_eq!(sync.need, vec![(a, vec![])]);
    assert_eq!(sync.need_len_for_actor(a), 0);
}

#[test]
fn sync_peer_is_the_one_we_lack_most_of() {
    let a = ActorId(1);
    let c = ActorId(2);
    let d = ActorId(3);
    let mut bookie = Bookie::new();
    bookie.add(a, 10, current(1));
    bookie.add(c, 3, current(2));
    let sync = generate_sync(&bookie, ActorId(9));
    let addr = |n: u16| PeerAddr::V4 { ip: 0x7f00_0001, port: n };
    assert_eq!(choose_sync_peer(&sync, &vec![]), None);
    assert_eq!(choose_sync_peer(&sync, &vec![(c, addr(1)), (a, addr(2))]), Some((a, addr(2))));
    assert_eq!(choose_sync_peer(&sync, &vec![(d, addr(3)), (c, addr(1))]), Some((c, addr(1))));
    assert_eq!(choose_sync_peer(&sync, &vec![(d, addr(3)), (ActorId(4), addr(4))]), Some((d, addr(3))));
}

#[test]
fn saturated_need_count() {
    let a = ActorId(1);
    let mut bookie = Bookie::new();
    bookie.add(a, u64::MAX, current(1));
    let sync = generate_sync(&bookie, ActorId(9));
    assert_eq!(sync.need_len_for_actor(a), u64::MAX - 1);
}

#[test]
fn sync_answer_carries_what_the_peer_lacks() {
    let a = ActorId(1);
    let b = ActorId(2);
    let mut server = Bookie::new();
    for v in 1..=5u64 {
        server.add(a, v, current(v));
    }
    server.add(b, 1, KnownVersion::Cleared);
    server.add(b, 2, current(9));
    let mut client = Bookie::new();
    client.add(a, 1, current(1));
    client.add(a, 3, current(2));
    let summary = generate_sync(&client, ActorId(3));
    assert!(summary.lacks_version(a, 2));
    assert!(!summary.lacks_version(a, 3));
    assert!(summary.lacks_version(a, 4));
    assert!(summary.lacks_version(b, 1));
    let answer = versions_to_send(&server, &summary);
    assert_eq!(
        answer,
        vec![(a, 2, current(2)), (a, 4, current(4)), (a, 5, current(5)), (b, 1, KnownVersion::Cleared), (b, 2, current(9))]
    );
    let caught_up = generate_sync(&server, ActorId(4));
    assert!(versions_to_send(&server, &caught_up).is_empty());
}
