//! Local writes: once a user transaction has run, decide whether it may
//! commit, which version it gets, what is booked and what is broadcast.
//!
//! Policy for a write that changed nothing: it gets no version, nothing is
//! booked and nothing is broadcast.
use vstd::prelude::*;
use crate::bookie::{booked_state, last_of, lemma_last_of, merged, state_in, Bookie, KnownVersion};
use crate::types::{
    changes_view, ActorId, Changeset, ChangesetModel, Message, MessageModel, RowChange,
    RowChangeModel, Timestamp,
};

verus! {

/// Why a local write did not go through.
pub enum ChangeError {
    /// No connection could be had from the writer pool.
    ConnAcquisition(String),
    /// The engine failed.
    Rusqlite(String),
    /// The transaction changed more rows than allowed.
    TooManyRowsImpacted,
}

/// The version that the next local write of an actor gets.
pub open spec fn next_version(m: Map<u64, KnownVersion>) -> int {
    match last_of(m) {
        Some(v) => v + 1,
        None => 1,
    }
}

/// The highest `db_version` among `start` and those of the changes.
pub open spec fn end_db_version(start: u64, cs: Seq<RowChangeModel>) -> u64
    decreases cs.len(),
{
    if cs.len() == 0 {
        start
    } else {
        let prev = end_db_version(start, cs.drop_last());
        if cs.last().db_version > prev {
            cs.last().db_version
        } else {
            prev
        }
    }
}

/// The changes, each attributed to `a`.
pub open spec fn with_site(cs: Seq<RowChangeModel>, a: ActorId) -> Seq<RowChangeModel> {
    cs.map_values(|c: RowChangeModel| RowChangeModel { site_id: a, ..c })
}

/// What a local write will commit.
pub struct WritePlan {
    /// The version the write gets.
    pub version: u64,
    /// Where its changes end in the local engine, when it changed anything;
    /// a bookkeeping row `(actor, version, db_version)` goes with it.
    pub db_version: Option<u64>,
    /// Its changes, attributed to the local actor.
    pub changes: Vec<RowChange>,
}

/// The changes attributed to `actor_id`, and where they end in the local
/// engine (no earlier than `start_db_version`).
fn stamp_changes(changes: &Vec<RowChange>, actor_id: ActorId, start_db_version: u64) -> (r: (
    Vec<RowChange>,
    u64,
))
    ensures
        changes_view(r.0@) == with_site(changes_view(changes@), actor_id),
        r.1 == end_db_version(start_db_version, changes_view(changes@)),
{
    let ghost model = changes_view(changes@);
    let mut end: u64 = start_db_version;
    let mut out: Vec<RowChange> = Vec::new();
    let mut i: usize = 0;
    while i < changes.len()
        invariant
            i <= changes@.len(),
            model == changes_view(changes@),
            out@.len() == i,
            changes_view(out@) == with_site(model.subrange(0, i as int), actor_id),
            end == end_db_version(start_db_version, model.subrange(0, i as int)),
        decreases changes@.len() - i,
    {
        let c = changes[i].copy_with_site(actor_id);
        let d = changes[i].db_version;
        let ghost before = out@;
        out.push(c);
        proof {
            assert(model.subrange(0, i + 1).drop_last() =~= model.subrange(0, i as int));
            assert forall|j: int| 0 <= j < i + 1 implies #[trigger] changes_view(out@)[j] == with_site(
                model.subrange(0, i + 1),
                actor_id,
            )[j] by {
                if j < i {
                    assert(changes_view(before)[j] == with_site(model.subrange(0, i as int), actor_id)[j]);
                    assert(out@[j] == before[j]);
                } else {
                    assert(out@[j] == c);
                }
            }
            assert(changes_view(out@) =~= with_site(model.subrange(0, i + 1), actor_id));
        }
        if d > end {
            end = d;
        }
        i = i + 1;
    }
    assert(model.subrange(0, i as int) =~= model);
    (out, end)
}

/// Decides, before the commit, what a local write that ran from
/// `start_db_version` and impacted `rows_impacted` rows will commit.
/// `changes` are the locally authored changes past `start_db_version`.
pub fn make_broadcastable_changes(
    bookie: &Bookie,
    actor_id: ActorId,
    start_db_version: u64,
    rows_impacted: i64,
    max_change_size: i64,
    changes: &Vec<RowChange>,
) -> (r: Result<WritePlan, ChangeError>)
    requires
        bookie.wf(),
        next_version(bookie.versions(actor_id)) <= u64::MAX,
    ensures
        rows_impacted > max_change_size <==> r is Err,
        match r {
            Ok(p) => {
                &&& p.version == next_version(bookie.versions(actor_id))
                &&& changes_view(p.changes@) == with_site(changes_view(changes@), actor_id)
                &&& p.db_version == if end_db_version(
                    start_db_version,
                    changes_view(changes@),
                ) > start_db_version {
                    Some(end_db_version(start_db_version, changes_view(changes@)))
                } else {
                    None
                }
            },
            Err(e) => e is TooManyRowsImpacted,
        },
{
    if rows_impacted > max_change_size {
        return Err(ChangeError::TooManyRowsImpacted);
    }
    let version: u64 = match bookie.last(actor_id) {
        Some(v) => v + 1,
        None => 1,
    };
    let (out, end) = stamp_changes(changes, actor_id, start_db_version);
    let db_version = if end > start_db_version {
        Some(end)
    } else {
        None
    };
    Ok(WritePlan { version, db_version, changes: out })
}

/// The broadcast of a committed local write.
pub open spec fn local_change_message(
    actor_id: ActorId,
    version: u64,
    changes: Seq<RowChangeModel>,
    ts: Timestamp,
) -> MessageModel {
    MessageModel::Change {
        actor_id,
        version,
        changeset: ChangesetModel::Full { changes, ts },
        ts,
    }
}

/// Once the write committed: books its version and gives the message to
/// broadcast. A write without changes is neither booked nor broadcast.
pub fn record_local_write(bookie: &mut Bookie, actor_id: ActorId, plan: WritePlan, ts: Timestamp) -> (r:
    Option<Message>)
    requires
        old(bookie).wf(),
    ensures
        final(bookie).wf(),
        plan.changes@.len() == 0 ==> r is None && forall|a: ActorId| #[trigger] final(bookie).versions(a)
            == old(bookie).versions(a),
        plan.changes@.len() > 0 ==> {
            &&& r matches Some(m) && m@ == local_change_message(
                actor_id,
                plan.version,
                changes_view(plan.changes@),
                ts,
            )
            &&& forall|a: ActorId| #[trigger] final(bookie).versions(a) == if a == actor_id {
                old(bookie).versions(actor_id).insert(
                    plan.version,
                    merged(
                        state_in(old(bookie).versions(actor_id), plan.version),
                        booked_state(plan.db_version, ts),
                    ),
                )
            } else {
                old(bookie).versions(a)
            }
        },
{
    if plan.changes.len() == 0 {
        return None;
    }
    let state = match plan.db_version {
        Some(d) => KnownVersion::Current { db_version: d, ts },
        None => KnownVersion::Cleared,
    };
    bookie.add(actor_id, plan.version, state);
    Some(
        Message::Change {
            actor_id,
            version: plan.version,
            changeset: Changeset::Full { changes: plan.changes, ts },
            ts,
        },
    )
}

/// Local versions are consecutive: once a write is booked at the next
/// version of an actor, the write after it gets exactly one more, so every
/// later version is higher.
pub proof fn lemma_versions_consecutive(b: Bookie, actor_id: ActorId, s: KnownVersion)
    requires
        b.wf(),
        next_version(b.versions(actor_id)) <= u64::MAX,
    ensures
        ({
            let m = b.versions(actor_id);
            let v = next_version(m) as u64;
            next_version(m.insert(v, merged(state_in(m, v), s))) == next_version(m) + 1
        }),
{
    let m = b.versions(actor_id);
    let v = next_version(m) as u64;
    let n = m.insert(v, merged(state_in(m, v), s));
    b.lemma_last_is_max(actor_id);
    assert forall|w: u64| n.contains_key(w) implies w <= v by {
        if w != v {
            assert(m.contains_key(w));
            assert(m.dom().contains(w));
        }
    }
    lemma_last_of(n, v);
}

/// The HTTP status a write request gets: 400 without statements or when
/// the transaction changed too many rows, 500 for any other failure, 200
/// when it committed.
pub fn execute_status(statements: usize, outcome: Option<&ChangeError>) -> (r: u16)
    ensures
        statements == 0 ==> r == 400,
        statements > 0 ==> r == match outcome {
            None => 200u16,
            Some(ChangeError::TooManyRowsImpacted) => 400u16,
            Some(_) => 500u16,
        },
{
    if statements == 0 {
        return 400;
    }
    match outcome {
        None => 200,
        Some(ChangeError::TooManyRowsImpacted) => 400,
        Some(_) => 500,
    }
}

} // verus!
