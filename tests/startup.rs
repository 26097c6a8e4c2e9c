use corrosion::bookie::{Bookie, KnownVersion};
use corrosion::bootstrap::{
    choose_bootstrap, generate_bootstrap, parse_bootstrap_entry, parse_port, BootstrapEntry,
    RANDOM_NODES_CHOICES,
};
use corrosion::identity::{actor_id_from_parsed, read_actor_id, ActorIdFile};
use corrosion::ingest::swim_datagram;
use corrosion::members::PeerAddr;
use corrosion::sync::{generate_sync, pick_sync_peer};
use corrosion::types::{ActorId, Timestamp};

#[test]
fn actor_id_file_contents() {
    assert_eq!(read_actor_id(""), ActorIdFile::Empty);
    assert_eq!(
        read_actor_id("550e8400-e29b-41d4-a716-446655440000"),
        ActorIdFile::Valid(ActorId(0x550e8400_e29b_41d4_a716_446655440000))
    );
    assert_eq!(
        read_actor_id("550e8400e29b41d4a716446655440000"),
        ActorIdFile::Valid(ActorId(0x550e8400_e29b_41d4_a716_446655440000))
    );
    assert_eq!(read_actor_id("not a uuid"), ActorIdFile::Invalid);
    assert_eq!(actor_id_from_parsed(Some(7)), ActorIdFile::Valid(ActorId(7)));
    assert_eq!(actor_id_from_parsed(None), ActorIdFile::Invalid);
}

#[test]
fn restart_rebuilds_the_bookie_from_bookkeeping() {
    let a = ActorId(1);
    let rows = vec![
        (a, 1, Some(1), Timestamp(10)),
        (a, 2, Some(2), Timestamp(11)),
        (a, 3, Some(3), Timestamp(12)),
        (ActorId(2), 1, None, Timestamp(13)),
    ];
    let mut bookie = Bookie::from_rows(&rows);
    assert_eq!(bookie.last(a), Some(3));
    assert_eq!(bookie.actors[0].1.get(2), Some(KnownVersion::Current { db_version: 2, ts: Timestamp(11) }));
    assert_eq!(bookie.last(ActorId(2)), Some(1));
    assert_eq!(bookie.actors[1].1.get(1), Some(KnownVersion::Cleared));
    bookie.add(a, 4, KnownVersion::Current { db_version: 4, ts: Timestamp(14) });
    assert_eq!(bookie.last(a), Some(4));
    for v in 1..=3u64 {
        assert_eq!(bookie.actors[0].1.get(v), Some(KnownVersion::Current { db_version: v, ts: Timestamp(9 + v) }));
    }
    assert_eq!(generate_sync(&bookie, a).need_len_for_actor(a), 0);
}

#[test]
fn bootstrap_entries_are_split() {
    let e = parse_bootstrap_entry(b"node.internal:4001@10.0.0.53:53", 8787);
    assert_eq!(e, BootstrapEntry { host: (0, 13), port: 4001, dns_server: Some((19, 31)) });
    let e = parse_bootstrap_entry(b"node.internal", 8787);
    assert_eq!(e, BootstrapEntry { host: (0, 13), port: 8787, dns_server: None });
    let e = parse_bootstrap_entry(b"node:notaport", 8787);
    assert_eq!(e, BootstrapEntry { host: (0, 4), port: 8787, dns_server: None });
    let e = parse_bootstrap_entry(b"node@ns@x", 1);
    assert_eq!(e, BootstrapEntry { host: (0, 4), port: 1, dns_server: Some((5, 7)) });
    let e = parse_bootstrap_entry(b"", 1);
    assert_eq!(e, BootstrapEntry { host: (0, 0), port: 1, dns_server: None });
}

#[test]
fn ports_are_read_like_std() {
    let s = b"x65535y65536z+80w+z";
    assert_eq!(parse_port(s, 1, 6), Some(65535));
    assert_eq!(parse_port(s, 7, 12), None);
    assert_eq!(parse_port(s, 13, 16), Some(80));
    assert_eq!(parse_port(s, 17, 18), None);
    assert_eq!(parse_port(s, 1, 1), None);
    assert_eq!(parse_port(b"0", 0, 1), Some(0));
    assert_eq!(parse_port(b"0080", 0, 4), Some(80));
}

fn v4(last: u8) -> PeerAddr {
    PeerAddr::V4 { ip: 0x0a00_0000 | last as u32, port: 8787 }
}

#[test]
fn bootstrap_choice_is_bounded_and_distinct() {
    let many: Vec<PeerAddr> = (2..40u8).map(v4).collect();
    let chosen = choose_bootstrap(&many);
    assert_eq!(chosen.len(), RANDOM_NODES_CHOICES);
    for (i, a) in chosen.iter().enumerate() {
        assert!(many.contains(a));
        assert!(!chosen[..i].contains(a));
    }
    assert_eq!(choose_bootstrap(&vec![v4(2)]), vec![v4(2)]);
    assert!(choose_bootstrap(&vec![]).is_empty());
}

#[test]
fn bootstrap_falls_back_to_stored_members() {
    let ours = v4(1);
    let mut got = generate_bootstrap(ours, &vec![v4(2), v4(3)], &vec![v4(9)]);
    got.sort_by_key(|a| match a { PeerAddr::V4 { ip, .. } => *ip, _ => 0 });
    assert_eq!(got, vec![v4(2), v4(3)]);
    assert_eq!(generate_bootstrap(ours, &vec![ours], &vec![v4(9), ours]), vec![v4(9)]);
    assert!(generate_bootstrap(ours, &vec![], &vec![ours]).is_empty());
}

#[test]
fn random_sync_peer_comes_from_the_candidates() {
    let mut bookie = Bookie::new();
    bookie.add(ActorId(1), 5, KnownVersion::Cleared);
    let sync = generate_sync(&bookie, ActorId(9));
    assert_eq!(pick_sync_peer(&sync, &vec![]), None);
    let one = vec![(ActorId(1), v4(1))];
    assert_eq!(pick_sync_peer(&sync, &one), Some((ActorId(1), v4(1))));
    let two = vec![(ActorId(2), v4(2)), (ActorId(1), v4(1))];
    assert_eq!(pick_sync_peer(&sync, &two), Some((ActorId(1), v4(1))));
    let three = vec![(ActorId(2), v4(2)), (ActorId(3), v4(3)), (ActorId(4), v4(4))];
    let got = pick_sync_peer(&sync, &three).unwrap();
    assert!(three.contains(&got));
}

#[test]
fn swim_datagrams_start_with_their_kind() {
    assert_eq!(swim_datagram(&[7, 8]), vec![0, 7, 8]);
    assert_eq!(swim_datagram(&[]), vec![0]);
}
