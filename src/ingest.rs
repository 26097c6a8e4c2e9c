//! Remote changes: telling datagram payloads apart, choosing which gossiped
//! messages to pass on, and booking changesets once the engine applied them.
use vstd::prelude::*;
use crate::bookie::{booked_state, Bookie, KnownVersion};
use crate::frame::{decode_frames, read_stream, FrameError};
use crate::types::{
    changes_view, ActorId, Changeset, ChangesetModel, Message, MessageModel, RowChange,
    RowChangeModel,
};

verus! {

/// The kind of a datagram, from its first byte.
#[derive(Clone, Copy, Debug, PartialEq, Eq, Structural)]
pub enum PayloadKind {
    /// Failure-detector traffic, handed on as it is.
    Swim,
    /// Length-delimited messages.
    Broadcast,
    /// Length-delimited messages, with a higher fan-out priority.
    PriorityBroadcast,
    /// Anything else: dropped.
    Unknown(u8),
}

pub open spec fn kind_of_byte(b: u8) -> PayloadKind {
    if b == 0 {
        PayloadKind::Swim
    } else if b == 1 {
        PayloadKind::Broadcast
    } else if b == 2 {
        PayloadKind::PriorityBroadcast
    } else {
        PayloadKind::Unknown(b)
    }
}

impl PayloadKind {
    /// The kind that a first byte announces.
    pub fn from_byte(b: u8) -> (r: PayloadKind)
        ensures
            r == kind_of_byte(b),
    {
        if b == 0 {
            PayloadKind::Swim
        } else if b == 1 {
            PayloadKind::Broadcast
        } else if b == 2 {
            PayloadKind::PriorityBroadcast
        } else {
            PayloadKind::Unknown(b)
        }
    }

    /// The first byte of a payload of this kind.
    pub fn to_byte(&self) -> (r: u8)
        ensures
            self matches PayloadKind::Unknown(n) ==> r == n,
            !(self is Unknown) ==> kind_of_byte(r) == *self,
    {
        match self {
            PayloadKind::Swim => 0,
            PayloadKind::Broadcast => 1,
            PayloadKind::PriorityBroadcast => 2,
            PayloadKind::Unknown(n) => *n,
        }
    }

    /// A short name of the kind.
    pub fn name(&self) -> (r: &'static str)
        ensures
            self is Swim ==> r@ == "swim"@,
            self is Broadcast ==> r@ == "broadcast"@,
            self is PriorityBroadcast ==> r@ == "priority-broadcast"@,
            self is Unknown ==> r@ == "unknown"@,
    {
        match self {
            PayloadKind::Swim => "swim",
            PayloadKind::Broadcast => "broadcast",
            PayloadKind::PriorityBroadcast => "priority-broadcast",
            PayloadKind::Unknown(_) => "unknown",
        }
    }
}

/// The datagram that carries a failure-detector payload: the kind byte,
/// then the payload.
pub fn swim_datagram(payload: &[u8]) -> (r: Vec<u8>)
    ensures
        r@ == seq![0u8] + payload@,
        kind_of_byte(r@[0]) == PayloadKind::Swim,
{
    let mut out: Vec<u8> = Vec::new();
    out.push(0u8);
    let mut i: usize = 0;
    while i < payload.len()
        invariant
            i <= payload@.len(),
            out@ == seq![0u8] + payload@.subrange(0, i as int),
        decreases payload@.len() - i,
    {
        out.push(payload[i]);
        i = i + 1;
        assert(out@ =~= seq![0u8] + payload@.subrange(0, i as int));
    }
    assert(payload@.subrange(0, i as int) =~= payload@);
    out
}

/// What a datagram asks of its receiver.
pub enum PayloadAction {
    /// Hand `payload[start..]` to the failure detector.
    Swim { start: usize },
    /// Read `payload[start..]` as length-delimited messages.
    Broadcast { priority: bool, start: usize },
    /// Drop the datagram: the kind is unknown, or there is no byte at all.
    Drop { kind: Option<PayloadKind> },
}

/// Tells what to do with a payload. When `kind` is known already (a stream
/// whose first part carried it), every byte is body; otherwise the first
/// byte gives the kind.
pub fn handle_payload(kind: Option<PayloadKind>, payload: &[u8]) -> (r: PayloadAction)
    ensures
        ({
            let (k, start) = match kind {
                Some(k) => (Some(k), 0nat),
                None => if payload@.len() > 0 {
                    (Some(kind_of_byte(payload@[0])), 1nat)
                } else {
                    (None, 0nat)
                },
            };
            match k {
                Some(PayloadKind::Swim) => r == PayloadAction::Swim { start: start as usize },
                Some(PayloadKind::Broadcast) => r == PayloadAction::Broadcast {
                    priority: false,
                    start: start as usize,
                },
                Some(PayloadKind::PriorityBroadcast) => r == PayloadAction::Broadcast {
                    priority: true,
                    start: start as usize,
                },
                Some(PayloadKind::Unknown(n)) => r == PayloadAction::Drop {
                    kind: Some(PayloadKind::Unknown(n)),
                },
                None => r == PayloadAction::Drop { kind: None },
            }
        }),
{
    let (k, start) = match kind {
        Some(k) => (k, 0usize),
        None => {
            if payload.len() == 0 {
                return PayloadAction::Drop { kind: None };
            }
            (PayloadKind::from_byte(payload[0]), 1usize)
        },
    };
    match k {
        PayloadKind::Swim => PayloadAction::Swim { start },
        PayloadKind::Broadcast => PayloadAction::Broadcast { priority: false, start },
        PayloadKind::PriorityBroadcast => PayloadAction::Broadcast { priority: true, start },
        PayloadKind::Unknown(n) => PayloadAction::Drop { kind: Some(PayloadKind::Unknown(n)) },
    }
}

/// A gossiped message is passed on when it comes from another actor and,
/// for a change, when its version is not known here yet.
pub open spec fn should_forward(bookie: Bookie, self_id: ActorId, m: MessageModel) -> bool {
    match m {
        MessageModel::Change { actor_id, version, .. } => !bookie.versions(actor_id).contains_key(
            version,
        ) && actor_id != self_id,
        MessageModel::UpsertSubscription { actor_id, .. } => actor_id != self_id,
    }
}

/// The messages of `ms` that are passed on, in order.
pub open spec fn forwarded(bookie: Bookie, self_id: ActorId, ms: Seq<MessageModel>) -> Seq<
    MessageModel,
>
    decreases ms.len(),
{
    if ms.len() == 0 {
        Seq::empty()
    } else {
        let prev = forwarded(bookie, self_id, ms.drop_last());
        if should_forward(bookie, self_id, ms.last()) {
            prev.push(ms.last())
        } else {
            prev
        }
    }
}

/// What a broadcast body yields.
pub struct BroadcastOutcome {
    /// The messages to hand to the ingestion queue, in order.
    pub forward: Vec<Message>,
    /// How many bytes of the body were read.
    pub consumed: usize,
    /// Why reading stopped early, if it did.
    pub error: Option<FrameError>,
}

/// Reads the frames of a broadcast body and keeps the messages to pass on.
pub fn handle_broadcast(buf: &[u8], self_actor_id: ActorId, bookie: &Bookie) -> (r:
    BroadcastOutcome)
    requires
        bookie.wf(),
    ensures
        r.forward@.map_values(|m: Message| m@) == forwarded(
            *bookie,
            self_actor_id,
            read_stream(buf@, 0).messages,
        ),
        r.consumed == read_stream(buf@, 0).consumed,
        r.error == read_stream(buf@, 0).error,
{
    let decoded = decode_frames(buf);
    let ghost ms = decoded.messages@.map_values(|m: Message| m@);
    let mut messages = decoded.messages;
    let mut taken: Vec<Message> = Vec::new();
    // Take the messages out from the back, then keep those to pass on in order.
    while messages.len() > 0
        invariant
            ms == read_stream(buf@, 0).messages,
            ms.len() == messages@.len() + taken@.len(),
            forall|j: int| 0 <= j < messages@.len() ==> #[trigger] messages@[j]@ == ms[j],
            forall|j: int|
                0 <= j < taken@.len() ==> #[trigger] taken@[j]@ == ms[ms.len() - 1 - j],
        decreases messages@.len(),
    {
        let m = messages.pop().unwrap();
        taken.push(m);
    }
    let mut forward: Vec<Message> = Vec::new();
    let n = taken.len();
    while taken.len() > 0
        invariant
            bookie.wf(),
            ms == read_stream(buf@, 0).messages,
            n == ms.len(),
            taken@.len() <= n,
            forall|j: int|
                0 <= j < taken@.len() ==> #[trigger] taken@[j]@ == ms[ms.len() - 1 - j],
            forward@.map_values(|m: Message| m@) == forwarded(
                *bookie,
                self_actor_id,
                ms.subrange(0, n - taken@.len()),
            ),
        decreases taken@.len(),
    {
        let ghost i = n - taken@.len();
        let m = taken.pop().unwrap();
        assert(m@ == ms[i]);
        let pass = match &m {
            Message::Change { actor_id, version, .. } => !bookie.contains(*actor_id, *version)
                && *actor_id != self_actor_id,
            Message::UpsertSubscription { actor_id, .. } => *actor_id != self_actor_id,
        };
        let ghost before = forward@.map_values(|m: Message| m@);
        proof {
            assert(ms.subrange(0, i + 1).drop_last() =~= ms.subrange(0, i));
            assert(ms.subrange(0, i + 1).last() == ms[i]);
        }
        if pass {
            forward.push(m);
            assert(forward@.map_values(|m: Message| m@) =~= before.push(ms[i]));
        }
    }
    assert(ms.subrange(0, n as int) =~= ms);
    BroadcastOutcome { forward, consumed: decoded.consumed, error: decoded.error }
}

/// The message is a change whose version is known here already.
pub open spec fn message_known(bookie: Bookie, m: MessageModel) -> bool {
    match m {
        MessageModel::Change { actor_id, version, .. } => bookie.versions(actor_id).contains_key(
            version,
        ),
        MessageModel::UpsertSubscription { .. } => false,
    }
}

/// Is the message a change already known here?
pub fn is_known(bookie: &Bookie, msg: &Message) -> (r: bool)
    requires
        bookie.wf(),
    ensures
        r == message_known(*bookie, msg@),
{
    match msg {
        Message::Change { actor_id, version, .. } => bookie.contains(*actor_id, *version),
        Message::UpsertSubscription { .. } => false,
    }
}

/// The changes whose application impacted at least one row, in order.
pub open spec fn impactful(cs: Seq<RowChangeModel>, impacts: Seq<i64>) -> Seq<RowChangeModel>
    decreases cs.len(),
{
    if cs.len() == 0 {
        Seq::empty()
    } else {
        let prev = impactful(cs.drop_last(), impacts);
        if impacts[cs.len() - 1] > 0 {
            prev.push(cs.last())
        } else {
            prev
        }
    }
}

/// The versions of an actor once a remote version arrived: a version known
/// already stays as it was.
pub open spec fn after_ingest(m: Map<u64, KnownVersion>, version: u64, s: KnownVersion) -> Map<
    u64,
    KnownVersion,
> {
    if m.contains_key(version) {
        m
    } else {
        m.insert(version, s)
    }
}

/// What the engine reported while it applied a remote changeset in one
/// transaction.
pub struct ApplyOutcome {
    /// The engine's `db_version` before the changes.
    pub start_db_version: u64,
    /// For each change, in order, how many rows it impacted.
    pub impacts: Vec<i64>,
    /// The highest `db_version` of the change log after the changes.
    pub end_db_version: u64,
}

/// What an ingested change left for local observers.
pub struct Processed {
    /// Where the version ends in the local engine, if it changed anything.
    pub db_version: Option<u64>,
    /// The changes that impacted rows here.
    pub impactful: Vec<RowChange>,
}

/// The changes a changeset carries.
pub open spec fn changeset_changes(c: ChangesetModel) -> Seq<RowChangeModel> {
    match c {
        ChangesetModel::Full { changes, .. } => changes,
        ChangesetModel::Cleared => Seq::empty(),
    }
}

fn impactful_changes(changes: &Vec<RowChange>, impacts: &Vec<i64>) -> (r: Vec<RowChange>)
    requires
        impacts@.len() == changes@.len(),
    ensures
        changes_view(r@) == impactful(changes_view(changes@), impacts@),
{
    let ghost model = changes_view(changes@);
    let mut out: Vec<RowChange> = Vec::new();
    let mut i: usize = 0;
    while i < changes.len()
        invariant
            i <= changes@.len() == impacts@.len(),
            model == changes_view(changes@),
            changes_view(out@) == impactful(model.subrange(0, i as int), impacts@),
        decreases changes@.len() - i,
    {
        proof {
            assert(model.subrange(0, i + 1).drop_last() =~= model.subrange(0, i as int));
        }
        if impacts[i] > 0 {
            let c = changes[i].copy_with_site(changes[i].site_id);
            let ghost before = out@;
            out.push(c);
            assert(changes_view(out@) =~= changes_view(before).push(model[i as int]));
        }
        i = i + 1;
    }
    assert(model.subrange(0, i as int) =~= model);
    out
}

/// Books a remote message once the engine applied it, and gives it back for
/// rebroadcast, whole, together with what impacted rows here. A change whose
/// version is known already gives nothing and changes nothing; a
/// subscription message is passed on as it is.
pub fn process_msg(bookie: &mut Bookie, msg: Message, applied: &ApplyOutcome) -> (r: Option<
    (Message, Processed),
>)
    requires
        old(bookie).wf(),
        msg matches Message::Change { changeset, .. } ==> applied.impacts@.len() == changeset_changes(
            changeset@,
        ).len(),
    ensures
        final(bookie).wf(),
        match msg@ {
            MessageModel::Change { actor_id, version, changeset, ts } => {
                if old(bookie).versions(actor_id).contains_key(version) {
                    &&& r is None
                    &&& forall|a: ActorId| #[trigger] final(bookie).versions(a) == old(bookie).versions(a)
                } else {
                    let db_version = if applied.end_db_version > applied.start_db_version {
                        Some(applied.end_db_version)
                    } else {
                        None
                    };
                    &&& r matches Some((m, p)) && m@ == msg@ && p.db_version == db_version
                        && changes_view(p.impactful@) == impactful(
                        changeset_changes(changeset),
                        applied.impacts@,
                    )
                    &&& forall|a: ActorId| #[trigger] final(bookie).versions(a) == if a == actor_id {
                        after_ingest(
                            old(bookie).versions(actor_id),
                            version,
                            booked_state(db_version, ts),
                        )
                    } else {
                        old(bookie).versions(a)
                    }
                }
            },
            MessageModel::UpsertSubscription { .. } => {
                &&& r matches Some((m, p)) && m@ == msg@ && p.db_version is None
                    && p.impactful@.len() == 0
                &&& forall|a: ActorId| #[trigger] final(bookie).versions(a) == old(bookie).versions(a)
            },
        },
{
    let (actor_id, version, ts) = match &msg {
        Message::Change { actor_id, version, ts, .. } => (*actor_id, *version, *ts),
        Message::UpsertSubscription { .. } => {
            return Some((msg, Processed { db_version: None, impactful: Vec::new() }));
        },
    };
    if bookie.contains(actor_id, version) {
        return None;
    }
    let db_version = if applied.end_db_version > applied.start_db_version {
        Some(applied.end_db_version)
    } else {
        None
    };
    let impactful = match &msg {
        Message::Change { changeset: Changeset::Full { changes, .. }, .. } => impactful_changes(
            changes,
            &applied.impacts,
        ),
        _ => Vec::new(),
    };
    let state = match db_version {
        Some(d) => KnownVersion::Current { db_version: d, ts },
        None => KnownVersion::Cleared,
    };
    bookie.add(actor_id, version, state);
    Some((msg, Processed { db_version, impactful }))
}

/// Ingestion is idempotent: once a version arrived, the same version
/// arriving again leaves the Bookie as the first arrival left it.
pub proof fn lemma_ingest_idempotent(
    m: Map<u64, KnownVersion>,
    version: u64,
    first: KnownVersion,
    again: KnownVersion,
)
    ensures
        after_ingest(after_ingest(m, version, first), version, again) == after_ingest(
            m,
            version,
            first,
        ),
{
}

/// A change already booked is never passed on again by gossip.
pub proof fn lemma_known_not_forwarded(bookie: Bookie, self_id: ActorId, m: MessageModel)
    requires
        message_known(bookie, m),
    ensures
        !should_forward(bookie, self_id, m),
{
}

/// Ingestion order does not matter to which versions are known: two
/// versions arriving in either order leave the same versions known.
pub proof fn lemma_ingest_order_irrelevant(
    m: Map<u64, KnownVersion>,
    v1: u64,
    s1: KnownVersion,
    v2: u64,
    s2: KnownVersion,
)
    ensures
        after_ingest(after_ingest(m, v1, s1), v2, s2).dom() == after_ingest(
            after_ingest(m, v2, s2),
            v1,
            s1,
        ).dom(),
{
    assert(after_ingest(after_ingest(m, v1, s1), v2, s2).dom() =~= after_ingest(
        after_ingest(m, v2, s2),
        v1,
        s1,
    ).dom());
}

} // verus!
