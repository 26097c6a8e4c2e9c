//! Packing broadcast messages into datagrams: each datagram is a kind byte
//! followed by whole length-delimited frames, and stays within a size
//! limit.
use vstd::prelude::*;
use crate::bytes::{be32_value, lemma_be32_round_trip};
use crate::frame::{encode_frame, frame_of, frameable, frames_of};
use crate::types::{Message, MessageModel};
use crate::wire::enc_message;

verus! {

/// The bytes of datagram bodies, one after the other.
pub open spec fn flatten(ds: Seq<Seq<u8>>) -> Seq<u8>
    decreases ds.len(),
{
    if ds.len() == 0 {
        Seq::empty()
    } else {
        flatten(ds.drop_last()) + ds.last()
    }
}

/// A message travels when its frame, after the kind byte, fits a datagram
/// of `max_len` bytes.
pub open spec fn fits_datagram(m: MessageModel, max_len: nat) -> bool {
    frameable(m) && 1 + frame_of(enc_message(m)).len() <= max_len
}

/// The messages of `ms` that travel, in order.
pub open spec fn travelling(ms: Seq<MessageModel>, max_len: nat) -> Seq<MessageModel>
    decreases ms.len(),
{
    if ms.len() == 0 {
        Seq::empty()
    } else if fits_datagram(ms.last(), max_len) {
        travelling(ms.drop_last(), max_len).push(ms.last())
    } else {
        travelling(ms.drop_last(), max_len)
    }
}

pub proof fn lemma_frames_of_push(ms: Seq<MessageModel>, m: MessageModel)
    ensures
        frames_of(ms.push(m)) == frames_of(ms) + frame_of(enc_message(m)),
    decreases ms.len(),
{
    if ms.len() == 0 {
        assert(ms.push(m).drop_first() =~= Seq::<MessageModel>::empty());
        assert(frames_of(ms.push(m).drop_first()) == Seq::<u8>::empty());
        assert(frames_of(ms) == Seq::<u8>::empty());
        assert(frames_of(ms.push(m)) =~= frames_of(ms) + frame_of(enc_message(m)));
    } else {
        lemma_frames_of_push(ms.drop_first(), m);
        assert(ms.push(m).drop_first() =~= ms.drop_first().push(m));
        assert(frames_of(ms.push(m)) =~= frames_of(ms) + frame_of(enc_message(m)));
    }
}

/// The length of the first frame of a datagram, as its prefix announces.
pub open spec fn first_frame_len(d: Seq<u8>) -> int {
    (4 + be32_value(d.subrange(1, 5))) as int
}

/// Every message that fits no datagram is among the `dropped` positions.
pub open spec fn all_reported(msgs: Seq<Message>, dropped: Seq<usize>, max_len: nat) -> bool {
    forall|x: int|
        0 <= x < msgs.len() && !fits_datagram(#[trigger] msgs[x]@, max_len) ==> exists|k: int|
            0 <= k < dropped.len() && #[trigger] dropped[k] == x
}

/// Datagrams ready to send, and the messages left out.
pub struct Packed {
    pub datagrams: Vec<Vec<u8>>,
    /// Positions of the messages too large for any datagram.
    pub dropped: Vec<usize>,
}

pub open spec fn bodies(ds: Seq<Vec<u8>>) -> Seq<Seq<u8>> {
    ds.map_values(|d: Vec<u8>| d@.drop_first())
}

/// The datagrams so far and the one being filled are well formed: each
/// starts with `kind`, the closed ones hold a frame and fit, and each closed
/// one was closed because the next frame would not fit.
pub open spec fn packing_ok(ds: Seq<Vec<u8>>, cur: Seq<u8>, kind: u8, max_len: nat) -> bool {
    &&& 1 <= cur.len()
    &&& cur[0] == kind
    &&& (cur.len() == 1 || 5 <= cur.len() <= max_len)
    &&& (ds.len() > 0 ==> cur.len() > 1)
    &&& forall|d: int|
        0 <= d < ds.len() ==> {
            &&& 5 <= (#[trigger] ds[d])@.len() <= max_len
            &&& ds[d]@[0] == kind
        }
    &&& forall|d: int|
        0 <= d < ds.len() - 1 ==> (#[trigger] ds[d])@.len() + first_frame_len(ds[d + 1]@) > max_len
    &&& (ds.len() > 0 && cur.len() > 1 ==> ds.last()@.len() + first_frame_len(cur) > max_len)
}

/// Adds a frame to the datagram being filled, first closing it when the
/// frame would not fit.
fn append_frame(
    datagrams: &mut Vec<Vec<u8>>,
    cur: &mut Vec<u8>,
    frame: &Vec<u8>,
    kind: u8,
    max_len: usize,
)
    requires
        packing_ok(old(datagrams)@, old(cur)@, kind, max_len as nat),
        4 <= frame@.len() < max_len,
        be32_value(frame@.subrange(0, 4)) + 4 == frame@.len(),
    ensures
        packing_ok(final(datagrams)@, final(cur)@, kind, max_len as nat),
        flatten(bodies(final(datagrams)@)) + final(cur)@.drop_first() == flatten(bodies(old(datagrams)@))
            + old(cur)@.drop_first() + frame@,
{
    let ghost ds0 = datagrams@;
    let ghost cur0 = cur@;
    if cur.len() > 1 && cur.len() > max_len - frame.len() {
        let mut closed: Vec<u8> = Vec::new();
        std::mem::swap(cur, &mut closed);
        datagrams.push(closed);
        cur.push(kind);
        proof {
            assert(bodies(datagrams@) =~= bodies(ds0).push(cur0.drop_first()));
            assert(bodies(datagrams@).drop_last() =~= bodies(ds0));
            assert(cur@.drop_first() =~= Seq::<u8>::empty());
            assert(flatten(bodies(datagrams@)) + cur@.drop_first() =~= flatten(bodies(ds0)) + cur0.drop_first());
        }
    }
    let ghost ds1 = datagrams@;
    let ghost cur1 = cur@;
    let mut j: usize = 0;
    while j < frame.len()
        invariant
            j <= frame@.len(),
            cur@ == cur1 + frame@.subrange(0, j as int),
        decreases frame@.len() - j,
    {
        cur.push(frame[j]);
        j = j + 1;
        assert(cur@ =~= cur1 + frame@.subrange(0, j as int));
    }
    proof {
        assert(frame@.subrange(0, j as int) =~= frame@);
        assert(cur@.drop_first() =~= cur1.drop_first() + frame@);
        if cur1.len() == 1 {
            assert(cur@.subrange(1, 5) =~= frame@.subrange(0, 4));
        } else {
            assert(cur@.subrange(1, 5) =~= cur1.subrange(1, 5));
        }
    }
}

/// Packs messages, in order, into datagrams: a datagram is closed when the
/// next frame would not fit. Every datagram starts with the broadcast kind
/// byte (priority or not), holds at least one frame and at most `max_len`
/// bytes; their bodies, one after the other, are exactly the frames of the
/// messages that fit a datagram at all; the others are reported.
pub fn pack_broadcast(msgs: &Vec<Message>, priority: bool, max_len: usize) -> (r: Packed)
    ensures
        forall|d: int|
            0 <= d < r.datagrams@.len() ==> {
                &&& 5 <= (#[trigger] r.datagrams@[d])@.len() <= max_len
                &&& r.datagrams@[d]@[0] == if priority {
                    2u8
                } else {
                    1u8
                }
            },
        forall|d: int|
            0 <= d < r.datagrams@.len() - 1 ==> (#[trigger] r.datagrams@[d])@.len() + first_frame_len(
                r.datagrams@[d + 1]@,
            ) > max_len,
        flatten(bodies(r.datagrams@)) == frames_of(
            travelling(msgs@.map_values(|m: Message| m@), max_len as nat),
        ),
        forall|k: int|
            0 <= k < r.dropped@.len() ==> #[trigger] r.dropped@[k] < msgs@.len() && !fits_datagram(
                msgs@[r.dropped@[k] as int]@,
                max_len as nat,
            ),
        all_reported(msgs@, r.dropped@, max_len as nat),
{
    let kind: u8 = if priority {
        2
    } else {
        1
    };
    let ghost ms = msgs@.map_values(|m: Message| m@);
    let mut datagrams: Vec<Vec<u8>> = Vec::new();
    let mut dropped: Vec<usize> = Vec::new();
    let mut cur: Vec<u8> = Vec::new();
    cur.push(kind);
    let mut i: usize = 0;
    while i < msgs.len()
        invariant
            i <= msgs@.len(),
            ms == msgs@.map_values(|m: Message| m@),
            packing_ok(datagrams@, cur@, kind, max_len as nat),
            flatten(bodies(datagrams@)) + cur@.drop_first() == frames_of(
                travelling(ms.subrange(0, i as int), max_len as nat),
            ),
            forall|k: int|
                0 <= k < dropped@.len() ==> #[trigger] dropped@[k] < i && !fits_datagram(
                    msgs@[dropped@[k] as int]@,
                    max_len as nat,
                ),
            forall|x: int|
                0 <= x < i && !fits_datagram(#[trigger] msgs@[x]@, max_len as nat) ==> exists|k: int|
                    0 <= k < dropped@.len() && #[trigger] dropped@[k] == x,
        decreases msgs@.len() - i,
    {
        let ghost before = travelling(ms.subrange(0, i as int), max_len as nat);
        let ghost m = ms[i as int];
        proof {
            assert(ms.subrange(0, i + 1).drop_last() =~= ms.subrange(0, i as int));
            assert(ms.subrange(0, i + 1).last() == m);
            assert(msgs@[i as int]@ == m);
        }
        let mut frame: Vec<u8> = Vec::new();
        let framed = encode_frame(&mut frame, &msgs[i]);
        if framed.is_err() || frame.len() >= max_len {
            proof {
                assert(!fits_datagram(m, max_len as nat));
                assert(travelling(ms.subrange(0, i + 1), max_len as nat) == before);
            }
            let ghost d0 = dropped@;
            dropped.push(i);
            proof {
                assert forall|x: int|
                    0 <= x < i + 1 && !fits_datagram(#[trigger] msgs@[x]@, max_len as nat) implies exists|k: int|
                        0 <= k < dropped@.len() && #[trigger] dropped@[k] == x by {
                    if x < i {
                        let k = choose|k: int| 0 <= k < d0.len() && d0[k] == x;
                        assert(dropped@[k] == d0[k]);
                    } else {
                        assert(dropped@[d0.len() as int] == i);
                    }
                }
            }
        } else {
            proof {
                assert(fits_datagram(m, max_len as nat));
                assert(travelling(ms.subrange(0, i + 1), max_len as nat) == before.push(m));
                lemma_frames_of_push(before, m);
                let body = enc_message(m);
                lemma_be32_round_trip(body.len());
                assert(frame@.subrange(0, 4) =~= crate::bytes::be32_bytes(body.len()));
            }
            append_frame(&mut datagrams, &mut cur, &frame, kind, max_len);
        }
        i = i + 1;
    }
    proof {
        assert(ms.subrange(0, i as int) =~= ms);
        assert(i == msgs@.len());
    }
    assert(all_reported(msgs@, dropped@, max_len as nat));
    if cur.len() > 1 {
        let ghost ds0 = datagrams@;
        let ghost closed = cur@;
        datagrams.push(cur);
        proof {
            assert(bodies(datagrams@) =~= bodies(ds0).push(closed.drop_first()));
            assert(bodies(datagrams@).drop_last() =~= bodies(ds0));
        }
    } else {
        assert(cur@.drop_first() =~= Seq::<u8>::empty());
        assert(flatten(bodies(datagrams@)) + Seq::<u8>::empty() =~= flatten(bodies(datagrams@)));
    }
    Packed { datagrams, dropped }
}

} // verus!
