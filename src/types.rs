//! Identities, clock values and the replicated data carried between peers.
use vstd::prelude::*;

verus! {

/// A replica identity: the 128-bit id that also names the local engine's site.
#[derive(Clone, Copy, Debug, PartialEq, Eq, Hash, Structural)]
pub struct ActorId(pub u128);

/// A hybrid-logical-clock reading, packed as the clock's 64-bit time value.
#[derive(Clone, Copy, Debug, PartialEq, Eq, Hash, Structural)]
pub struct Timestamp(pub u64);

/// A column value as the engine stores it. A real number is carried as its
/// IEEE-754 bit pattern.
#[derive(Clone, Debug, PartialEq, Eq)]
pub enum SqlValue {
    Null,
    Integer(i64),
    Real(u64),
    Text(Vec<u8>),
    Blob(Vec<u8>),
}

pub enum ValueModel {
    Null,
    Integer(i64),
    Real(u64),
    Text(Seq<u8>),
    Blob(Seq<u8>),
}

impl View for SqlValue {
    type V = ValueModel;

    open spec fn view(&self) -> ValueModel {
        match self {
            SqlValue::Null => ValueModel::Null,
            SqlValue::Integer(i) => ValueModel::Integer(*i),
            SqlValue::Real(r) => ValueModel::Real(*r),
            SqlValue::Text(t) => ValueModel::Text(t@),
            SqlValue::Blob(b) => ValueModel::Blob(b@),
        }
    }
}

/// One CRDT unit: the value of one column of one row, with its versions.
#[derive(Clone, Debug, PartialEq, Eq)]
pub struct RowChange {
    pub table: Vec<u8>,
    pub pk: Vec<u8>,
    pub cid: Vec<u8>,
    pub val: SqlValue,
    pub col_version: u64,
    pub db_version: u64,
    pub site_id: ActorId,
}

pub struct RowChangeModel {
    pub table: Seq<u8>,
    pub pk: Seq<u8>,
    pub cid: Seq<u8>,
    pub val: ValueModel,
    pub col_version: u64,
    pub db_version: u64,
    pub site_id: ActorId,
}

impl View for RowChange {
    type V = RowChangeModel;

    open spec fn view(&self) -> RowChangeModel {
        RowChangeModel {
            table: self.table@,
            pk: self.pk@,
            cid: self.cid@,
            val: self.val@,
            col_version: self.col_version,
            db_version: self.db_version,
            site_id: self.site_id,
        }
    }
}

/// The model of a list of row changes.
pub open spec fn changes_view(v: Seq<RowChange>) -> Seq<RowChangeModel> {
    v.map_values(|c: RowChange| c@)
}

/// What one version of an actor holds.
#[derive(Clone, Debug, PartialEq, Eq)]
pub enum Changeset {
    /// The row changes of the version, in order, with the time they were made.
    Full { changes: Vec<RowChange>, ts: Timestamp },
    /// The version exists but left nothing to observe.
    Cleared,
}

pub enum ChangesetModel {
    Full { changes: Seq<RowChangeModel>, ts: Timestamp },
    Cleared,
}

impl View for Changeset {
    type V = ChangesetModel;

    open spec fn view(&self) -> ChangesetModel {
        match self {
            Changeset::Full { changes, ts } => ChangesetModel::Full {
                changes: changes_view(changes@),
                ts: *ts,
            },
            Changeset::Cleared => ChangesetModel::Cleared,
        }
    }
}

impl Changeset {
    /// The number of row changes (none for a cleared version).
    pub fn len(&self) -> (r: usize)
        ensures
            r == match self {
                Changeset::Full { changes, .. } => changes@.len(),
                Changeset::Cleared => 0,
            },
    {
        match self {
            Changeset::Full { changes, .. } => changes.len(),
            Changeset::Cleared => 0,
        }
    }
}

/// A message exchanged between peers.
#[derive(Clone, Debug, PartialEq, Eq)]
pub enum Message {
    Change { actor_id: ActorId, version: u64, changeset: Changeset, ts: Timestamp },
    UpsertSubscription { actor_id: ActorId, id: Vec<u8>, filter: Vec<u8>, ts: Timestamp },
}

pub enum MessageModel {
    Change { actor_id: ActorId, version: u64, changeset: ChangesetModel, ts: Timestamp },
    UpsertSubscription { actor_id: ActorId, id: Seq<u8>, filter: Seq<u8>, ts: Timestamp },
}

impl View for Message {
    type V = MessageModel;

    open spec fn view(&self) -> MessageModel {
        match self {
            Message::Change { actor_id, version, changeset, ts } => MessageModel::Change {
                actor_id: *actor_id,
                version: *version,
                changeset: changeset@,
                ts: *ts,
            },
            Message::UpsertSubscription { actor_id, id, filter, ts } =>
                MessageModel::UpsertSubscription {
                    actor_id: *actor_id,
                    id: id@,
                    filter: filter@,
                    ts: *ts,
                },
        }
    }
}

impl MessageModel {
    /// The actor that authored the message.
    pub open spec fn actor(self) -> ActorId {
        match self {
            MessageModel::Change { actor_id, .. } => actor_id,
            MessageModel::UpsertSubscription { actor_id, .. } => actor_id,
        }
    }
}

impl Message {
    /// The actor that authored the message.
    pub fn actor_id(&self) -> (r: ActorId)
        ensures
            r == self@.actor(),
    {
        match self {
            Message::Change { actor_id, .. } => *actor_id,
            Message::UpsertSubscription { actor_id, .. } => *actor_id,
        }
    }
}

/// A copy of a byte string.
pub fn copy_bytes(b: &Vec<u8>) -> (r: Vec<u8>)
    ensures
        r@ == b@,
{
    let mut out: Vec<u8> = Vec::new();
    let mut i: usize = 0;
    while i < b.len()
        invariant
            i <= b@.len(),
            out@ == b@.subrange(0, i as int),
        decreases b@.len() - i,
    {
        out.push(b[i]);
        i = i + 1;
        assert(out@ =~= b@.subrange(0, i as int));
    }
    assert(b@.subrange(0, i as int) =~= b@);
    out
}

impl SqlValue {
    /// A copy of the value.
    pub fn copy(&self) -> (r: SqlValue)
        ensures
            r@ == self@,
    {
        match self {
            SqlValue::Null => SqlValue::Null,
            SqlValue::Integer(i) => SqlValue::Integer(*i),
            SqlValue::Real(r) => SqlValue::Real(*r),
            SqlValue::Text(t) => SqlValue::Text(copy_bytes(t)),
            SqlValue::Blob(b) => SqlValue::Blob(copy_bytes(b)),
        }
    }
}

impl RowChange {
    /// A copy of the change, attributed to `site_id`.
    pub fn copy_with_site(&self, site_id: ActorId) -> (r: RowChange)
        ensures
            r@ == (RowChangeModel { site_id, ..self@ }),
    {
        RowChange {
            table: copy_bytes(&self.table),
            pk: copy_bytes(&self.pk),
            cid: copy_bytes(&self.cid),
            val: self.val.copy(),
            col_version: self.col_version,
            db_version: self.db_version,
            site_id,
        }
    }
}

/// A copy of a list of changes.
pub fn copy_changes(cs: &Vec<RowChange>) -> (r: Vec<RowChange>)
    ensures
        changes_view(r@) == changes_view(cs@),
{
    let mut out: Vec<RowChange> = Vec::new();
    let mut i: usize = 0;
    while i < cs.len()
        invariant
            i <= cs@.len(),
            out@.len() == i,
            changes_view(out@) == changes_view(cs@).subrange(0, i as int),
        decreases cs@.len() - i,
    {
        let c = cs[i].copy_with_site(cs[i].site_id);
        assert(c@ == cs@[i as int]@);
        let ghost before = out@;
        out.push(c);
        assert(out@ == before.push(c));
        i = i + 1;
        assert forall|j: int| 0 <= j < i implies #[trigger] changes_view(out@)[j] == changes_view(cs@)[j] by {
            if j < i - 1 {
                assert(changes_view(before)[j] == changes_view(cs@).subrange(0, i - 1)[j]);
                assert(out@[j] == before[j]);
            } else {
                assert(out@[j] == c);
                assert(changes_view(out@)[j] == c@);
            }
        }
        assert(changes_view(out@) =~= changes_view(cs@).subrange(0, i as int));
    }
    assert(changes_view(cs@).subrange(0, i as int) =~= changes_view(cs@));
    out
}

impl Changeset {
    /// A copy of the changeset.
    pub fn copy(&self) -> (r: Changeset)
        ensures
            r@ == self@,
    {
        match self {
            Changeset::Full { changes, ts } => Changeset::Full { changes: copy_changes(changes), ts: *ts },
            Changeset::Cleared => Changeset::Cleared,
        }
    }
}

} // verus!
