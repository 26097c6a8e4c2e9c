use corrosion::broadcast::pack_broadcast;
use corrosion::ingest::{handle_payload, PayloadAction};
use corrosion::frame::{decode_frames, encode_frame, next_frame, FrameError, FrameStep, MAX_FRAME_LEN};
use corrosion::types::{ActorId, Changeset, Message, RowChange, SqlValue, Timestamp};
use corrosion::wire::{decode_message, encode_message, MessageDecodeError};

fn change(table: &str, pk: &[u8], val: SqlValue, db_version: u64) -> RowChange {
    RowChange {
        table: table.as_bytes().to_vec(),
        pk: pk.to_vec(),
        cid: b"text".to_vec(),
        val,
        col_version: 1,
        db_version,
        site_id: ActorId(7),
    }
}

fn sample_change_message() -> Message {
    Message::Change {
        actor_id: ActorId(0x0102_0304_0506_0708_090a_0b0c_0d0e_0f10),
        version: 3,
        changeset: Changeset::Full {
            changes: vec![
                change("tests", b"\x01\x09\x01", SqlValue::Text(b"hello".to_vec()), 1),
                change("tests", b"\x01\x09\x02", SqlValue::Integer(-42), 2),
                change("tests2", b"", SqlValue::Null, 3),
                change("tests3", b"k", SqlValue::Real(1.5f64.to_bits()), 4),
                change("tests4", b"k", SqlValue::Blob(vec![0, 255, 3]), 5),
            ],
            ts: Timestamp(99),
        },
        ts: Timestamp(100),
    }
}

#[test]
fn change_message_round_trip() {
    let m = sample_change_message();
    let bytes = encode_message(&m);
    assert_eq!(decode_message(&bytes), Ok(m));
}

#[test]
fn cleared_and_subscription_round_trip() {
    let cleared = Message::Change {
        actor_id: ActorId(u128::MAX),
        version: u64::MAX,
        changeset: Changeset::Cleared,
        ts: Timestamp(0),
    };
    let bytes = encode_message(&cleared);
    assert_eq!(decode_message(&bytes), Ok(cleared));

    let sub = Message::UpsertSubscription {
        actor_id: ActorId(5),
        id: b"sub-1".to_vec(),
        filter: b"tests.id > 1".to_vec(),
        ts: Timestamp(12),
    };
    let bytes = encode_message(&sub);
    assert_eq!(decode_message(&bytes), Ok(sub));
}

#[test]
fn integer_extremes_round_trip() {
    for i in [i64::MIN, -1, 0, 1, i64::MAX] {
        let m = Message::Change {
            actor_id: ActorId(1),
            version: 1,
            changeset: Changeset::Full {
                changes: vec![change("t", b"p", SqlValue::Integer(i), 1)],
                ts: Timestamp(1),
            },
            ts: Timestamp(1),
        };
        assert_eq!(decode_message(&encode_message(&m)), Ok(m));
    }
}

#[test]
fn subscription_exact_bytes() {
    let sub = Message::UpsertSubscription {
        actor_id: ActorId(0x0201),
        id: b"a".to_vec(),
        filter: vec![],
        ts: Timestamp(0x0102),
    };
    let mut expected = vec![1u8];
    expected.extend_from_slice(&[0x01, 0x02]);
    expected.extend_from_slice(&[0u8; 14]);
    expected.extend_from_slice(&[1, 0, 0, 0, 0, 0, 0, 0, b'a']);
    expected.extend_from_slice(&[0; 8]);
    expected.extend_from_slice(&[0x02, 0x01, 0, 0, 0, 0, 0, 0]);
    assert_eq!(encode_message(&sub), expected);
}

#[test]
fn malformed_bodies_are_rejected() {
    assert_eq!(decode_message(&[]), Err(MessageDecodeError::Malformed));
    assert_eq!(decode_message(&[7]), Err(MessageDecodeError::Malformed));
    let bytes = encode_message(&sample_change_message());
    assert_eq!(decode_message(&bytes[..bytes.len() - 1]), Err(MessageDecodeError::Malformed));
    let mut longer = bytes.clone();
    longer.push(0);
    assert_eq!(decode_message(&longer), Err(MessageDecodeError::TrailingBytes));
}

#[test]
fn frames_round_trip() {
    let a = sample_change_message();
    let b = Message::UpsertSubscription {
        actor_id: ActorId(2),
        id: b"x".to_vec(),
        filter: b"y".to_vec(),
        ts: Timestamp(3),
    };
    let mut buf = vec![];
    assert_eq!(encode_frame(&mut buf, &a), Ok(()));
    assert_eq!(encode_frame(&mut buf, &b), Ok(()));
    let body_len = encode_message(&a).len();
    assert_eq!(&buf[0..4], &(body_len as u32).to_be_bytes());
    let decoded = decode_frames(&buf);
    assert_eq!(decoded.messages, vec![a, b]);
    assert_eq!(decoded.consumed, buf.len());
    assert_eq!(decoded.error, None);
}

#[test]
fn partial_frame_is_kept_for_later() {
    let a = sample_change_message();
    let mut buf = vec![];
    encode_frame(&mut buf, &a).unwrap();
    let whole = buf.len();
    encode_frame(&mut buf, &a).unwrap();
    buf.truncate(buf.len() - 3);
    let decoded = decode_frames(&buf);
    assert_eq!(decoded.messages.len(), 1);
    assert_eq!(decoded.consumed, whole);
    assert_eq!(decoded.error, None);
    assert!(matches!(next_frame(&buf, whole), FrameStep::Incomplete));
    assert!(matches!(next_frame(&buf, buf.len() - 2), FrameStep::Incomplete));
}

#[test]
fn oversized_length_prefix_is_rejected_in_place() {
    let a = sample_change_message();
    let mut buf = vec![];
    encode_frame(&mut buf, &a).unwrap();
    let good = buf.len();
    buf.extend_from_slice(&(MAX_FRAME_LEN + 1).to_be_bytes());
    encode_frame(&mut buf, &a).unwrap();
    let decoded = decode_frames(&buf);
    assert_eq!(decoded.messages, vec![a]);
    assert_eq!(decoded.consumed, good);
    assert_eq!(decoded.error, Some(FrameError::TooLong));
    assert!(matches!(next_frame(&buf, good), FrameStep::TooLong));
}

#[test]
fn bad_body_stops_after_its_frame() {
    let a = sample_change_message();
    let mut buf = vec![0, 0, 0, 2, 9, 9];
    encode_frame(&mut buf, &a).unwrap();
    let decoded = decode_frames(&buf);
    assert!(decoded.messages.is_empty());
    assert_eq!(decoded.consumed, 6);
    assert_eq!(decoded.error, Some(FrameError::Decode(MessageDecodeError::Malformed)));
}

#[test]
fn empty_stream_yields_nothing() {
    let decoded = decode_frames(&[]);
    assert!(decoded.messages.is_empty());
    assert_eq!(decoded.consumed, 0);
    assert_eq!(decoded.error, None);
}

#[test]
fn oversized_message_is_not_framed() {
    let m = Message::UpsertSubscription {
        actor_id: ActorId(1),
        id: vec![b'a'; MAX_FRAME_LEN as usize],
        filter: vec![],
        ts: Timestamp(0),
    };
    let mut buf = vec![1, 2];
    assert_eq!(encode_frame(&mut buf, &m), Err(FrameError::TooLong));
    assert_eq!(buf, vec![1, 2]);
}

#[test]
fn broadcasts_are_packed_into_bounded_datagrams() {
    let small = |n: u8| Message::UpsertSubscription {
        actor_id: ActorId(n as u128),
        id: vec![n; 10],
        filter: vec![],
        ts: Timestamp(n as u64),
    };
    let big = Message::UpsertSubscription { actor_id: ActorId(99), id: vec![1; 500], filter: vec![], ts: Timestamp(0) };
    let frame_len = {
        let mut b = vec![];
        encode_frame(&mut b, &small(1)).unwrap();
        b.len()
    };
    let msgs = vec![small(1), small(2), big.clone(), small(3), small(4), small(5)];
    let max_len = 1 + 2 * frame_len;
    let packed = pack_broadcast(&msgs, false, max_len);
    assert_eq!(packed.dropped, vec![2]);
    assert_eq!(packed.datagrams.len(), 3);
    let mut received = vec![];
    for d in &packed.datagrams {
        assert!(d.len() <= max_len);
        match handle_payload(None, d) {
            PayloadAction::Broadcast { priority: false, start } => {
                let decoded = decode_frames(&d[start..]);
                assert_eq!(decoded.error, None);
                assert_eq!(decoded.consumed, d.len() - 1);
                received.extend(decoded.messages);
            }
            _ => panic!("a broadcast datagram"),
        }
    }
    assert_eq!(received, vec![small(1), small(2), small(3), small(4), small(5)]);
    let prio = pack_broadcast(&vec![small(1)], true, max_len);
    assert_eq!(prio.datagrams.len(), 1);
    assert_eq!(prio.datagrams[0][0], 2);
    assert!(pack_broadcast(&vec![], false, max_len).datagrams.is_empty());
}
