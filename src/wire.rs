//! The message wire format: deterministic, with little-endian integers and
//! length-prefixed byte strings; the first byte of a message or of a value
//! is its variant tag.
use vstd::prelude::*;
use crate::bytes::{
    le_bytes, le_value, pow256, lemma_le_round_trip, lemma_le_value_bound, lemma_pow256_values,
    push_le, read_le,
};
use crate::types::{
    ActorId, Timestamp, SqlValue, ValueModel, RowChange, RowChangeModel, changes_view, Changeset,
    ChangesetModel, Message, MessageModel,
};

verus! {

/// `e` stands in `s` at position `p`.
pub open spec fn holds_at(s: Seq<u8>, p: nat, e: Seq<u8>) -> bool {
    p + e.len() <= s.len() && s.subrange(p as int, (p + e.len()) as int) == e
}

pub proof fn lemma_holds_split(s: Seq<u8>, p: nat, a: Seq<u8>, b: Seq<u8>)
    requires
        holds_at(s, p, a + b),
    ensures
        holds_at(s, p, a),
        holds_at(s, p + a.len(), b),
{
    assert(s.subrange(p as int, (p + a.len()) as int) =~= (a + b).subrange(0, a.len() as int));
    assert((a + b).subrange(0, a.len() as int) =~= a);
    assert(s.subrange((p + a.len()) as int, (p + a.len() + b.len()) as int) =~= (a + b).subrange(
        a.len() as int,
        (a.len() + b.len()) as int,
    ));
    assert((a + b).subrange(a.len() as int, (a.len() + b.len()) as int) =~= b);
}

// ---- encoding ----

/// The two's-complement bits of a signed integer.
pub open spec fn i64_bits(i: i64) -> u64 {
    if i >= 0 {
        i as u64
    } else {
        (i + 0x1_0000_0000_0000_0000) as u64
    }
}

/// The signed integer of two's-complement bits.
pub open spec fn bits_i64(u: u64) -> i64 {
    if u < 0x8000_0000_0000_0000 {
        u as i64
    } else {
        (u - 0x1_0000_0000_0000_0000) as i64
    }
}

pub open spec fn enc_u64(x: u64) -> Seq<u8> {
    le_bytes(x as nat, 8)
}

pub open spec fn enc_actor(a: ActorId) -> Seq<u8> {
    le_bytes(a.0 as nat, 16)
}

/// A byte string: its length on 8 bytes, then the bytes.
pub open spec fn enc_blob(b: Seq<u8>) -> Seq<u8> {
    le_bytes(b.len(), 8) + b
}

pub open spec fn enc_value(v: ValueModel) -> Seq<u8> {
    match v {
        ValueModel::Null => seq![0u8],
        ValueModel::Integer(i) => seq![1u8] + enc_u64(i64_bits(i)),
        ValueModel::Real(r) => seq![2u8] + enc_u64(r),
        ValueModel::Text(t) => seq![3u8] + enc_blob(t),
        ValueModel::Blob(b) => seq![4u8] + enc_blob(b),
    }
}

pub open spec fn enc_change(c: RowChangeModel) -> Seq<u8> {
    enc_blob(c.table) + enc_blob(c.pk) + enc_blob(c.cid) + enc_value(c.val) + enc_u64(
        c.col_version,
    ) + enc_u64(c.db_version) + enc_actor(c.site_id)
}

pub open spec fn enc_changes(cs: Seq<RowChangeModel>) -> Seq<u8>
    decreases cs.len(),
{
    if cs.len() == 0 {
        Seq::empty()
    } else {
        enc_change(cs[0]) + enc_changes(cs.drop_first())
    }
}

pub open spec fn enc_changeset(c: ChangesetModel) -> Seq<u8> {
    match c {
        ChangesetModel::Full { changes, ts } => seq![0u8] + le_bytes(changes.len(), 8)
            + enc_changes(changes) + enc_u64(ts.0),
        ChangesetModel::Cleared => seq![1u8],
    }
}

/// The encoding of a message.
pub open spec fn enc_message(m: MessageModel) -> Seq<u8> {
    match m {
        MessageModel::Change { actor_id, version, changeset, ts } => seq![0u8] + enc_actor(
            actor_id,
        ) + enc_u64(version) + enc_changeset(changeset) + enc_u64(ts.0),
        MessageModel::UpsertSubscription { actor_id, id, filter, ts } => seq![1u8] + enc_actor(
            actor_id,
        ) + enc_blob(id) + enc_blob(filter) + enc_u64(ts.0),
    }
}

// ---- decoding: each reads at a position and gives the value and the next position ----

pub open spec fn dec_u64(s: Seq<u8>, p: nat) -> Option<(u64, nat)> {
    if p + 8 <= s.len() {
        Some((le_value(s.subrange(p as int, (p + 8) as int)) as u64, p + 8))
    } else {
        None
    }
}

pub open spec fn dec_actor(s: Seq<u8>, p: nat) -> Option<(ActorId, nat)> {
    if p + 16 <= s.len() {
        Some((ActorId(le_value(s.subrange(p as int, (p + 16) as int)) as u128), p + 16))
    } else {
        None
    }
}

pub open spec fn dec_blob(s: Seq<u8>, p: nat) -> Option<(Seq<u8>, nat)> {
    match dec_u64(s, p) {
        Some((n, q)) => if q + n <= s.len() {
            Some((s.subrange(q as int, q + n), (q + n) as nat))
        } else {
            None
        },
        None => None,
    }
}

pub open spec fn dec_value(s: Seq<u8>, p: nat) -> Option<(ValueModel, nat)> {
    if p < s.len() {
        let tag = s[p as int];
        if tag == 0 {
            Some((ValueModel::Null, p + 1))
        } else if tag == 1 {
            match dec_u64(s, p + 1) {
                Some((x, q)) => Some((ValueModel::Integer(bits_i64(x)), q)),
                None => None,
            }
        } else if tag == 2 {
            match dec_u64(s, p + 1) {
                Some((x, q)) => Some((ValueModel::Real(x), q)),
                None => None,
            }
        } else if tag == 3 {
            match dec_blob(s, p + 1) {
                Some((b, q)) => Some((ValueModel::Text(b), q)),
                None => None,
            }
        } else if tag == 4 {
            match dec_blob(s, p + 1) {
                Some((b, q)) => Some((ValueModel::Blob(b), q)),
                None => None,
            }
        } else {
            None
        }
    } else {
        None
    }
}

/// Every byte string of the value has a length that fits the 8-byte prefix.
pub open spec fn value_fits(v: ValueModel) -> bool {
    match v {
        ValueModel::Text(t) => t.len() < pow256(8),
        ValueModel::Blob(b) => b.len() < pow256(8),
        _ => true,
    }
}

pub proof fn lemma_dec_u64(s: Seq<u8>, p: nat, x: u64)
    requires
        holds_at(s, p, enc_u64(x)),
    ensures
        dec_u64(s, p) == Some((x, p + enc_u64(x).len())),
        enc_u64(x).len() == 8,
{
    lemma_pow256_values();
    lemma_le_round_trip(x as nat, 8);
}

pub proof fn lemma_dec_actor(s: Seq<u8>, p: nat, a: ActorId)
    requires
        holds_at(s, p, enc_actor(a)),
    ensures
        dec_actor(s, p) == Some((a, p + enc_actor(a).len())),
        enc_actor(a).len() == 16,
{
    lemma_pow256_values();
    lemma_le_round_trip(a.0 as nat, 16);
}

pub proof fn lemma_dec_blob(s: Seq<u8>, p: nat, b: Seq<u8>)
    requires
        b.len() < pow256(8),
        holds_at(s, p, enc_blob(b)),
    ensures
        dec_blob(s, p) == Some((b, p + enc_blob(b).len())),
        enc_blob(b).len() == 8 + b.len(),
{
    lemma_pow256_values();
    lemma_le_round_trip(b.len(), 8);
    lemma_holds_split(s, p, le_bytes(b.len(), 8), b);
    assert(le_bytes(b.len(), 8) == enc_u64(b.len() as u64));
    lemma_dec_u64(s, p, b.len() as u64);
}

pub proof fn lemma_dec_value(s: Seq<u8>, p: nat, v: ValueModel)
    requires
        value_fits(v),
        holds_at(s, p, enc_value(v)),
    ensures
        dec_value(s, p) == Some((v, p + enc_value(v).len())),
{
    let e = enc_value(v);
    assert(s[p as int] == e[0]) by {
        assert(s.subrange(p as int, (p + e.len()) as int)[0] == s[p as int]);
    }
    match v {
        ValueModel::Null => {
            assert(e.len() == 1);
        },
        ValueModel::Integer(i) => {
            lemma_holds_split(s, p, seq![1u8], enc_u64(i64_bits(i)));
            lemma_dec_u64(s, p + 1, i64_bits(i));
        },
        ValueModel::Real(r) => {
            lemma_holds_split(s, p, seq![2u8], enc_u64(r));
            lemma_dec_u64(s, p + 1, r);
        },
        ValueModel::Text(t) => {
            lemma_holds_split(s, p, seq![3u8], enc_blob(t));
            lemma_dec_blob(s, p + 1, t);
        },
        ValueModel::Blob(b) => {
            lemma_holds_split(s, p, seq![4u8], enc_blob(b));
            lemma_dec_blob(s, p + 1, b);
        },
    }
}

pub open spec fn dec_change(s: Seq<u8>, p: nat) -> Option<(RowChangeModel, nat)> {
    match dec_blob(s, p) {
        None => None,
        Some((table, at1)) => match dec_blob(s, at1) {
            None => None,
            Some((pk, at2)) => match dec_blob(s, at2) {
                None => None,
                Some((cid, at3)) => match dec_value(s, at3) {
                    None => None,
                    Some((val, at4)) => match dec_u64(s, at4) {
                        None => None,
                        Some((col_version, at5)) => match dec_u64(s, at5) {
                            None => None,
                            Some((db_version, at6)) => match dec_actor(s, at6) {
                                None => None,
                                Some((site_id, at7)) => Some(
                                    (
                                        RowChangeModel {
                                            table,
                                            pk,
                                            cid,
                                            val,
                                            col_version,
                                            db_version,
                                            site_id,
                                        },
                                        at7,
                                    ),
                                ),
                            },
                        },
                    },
                },
            },
        },
    }
}

/// Puts `pre` in front of a decoded list.
pub open spec fn prepend(
    pre: Seq<RowChangeModel>,
    r: Option<(Seq<RowChangeModel>, nat)>,
) -> Option<(Seq<RowChangeModel>, nat)> {
    match r {
        Some((cs, q)) => Some((pre + cs, q)),
        None => None,
    }
}

/// Decodes `n` row changes one after the other.
pub open spec fn dec_changes(s: Seq<u8>, p: nat, n: nat) -> Option<(Seq<RowChangeModel>, nat)>
    decreases n,
{
    if n == 0 {
        Some((Seq::empty(), p))
    } else {
        match dec_change(s, p) {
            None => None,
            Some((c, q)) => prepend(seq![c], dec_changes(s, q, (n - 1) as nat)),
        }
    }
}

pub open spec fn dec_changeset(s: Seq<u8>, p: nat) -> Option<(ChangesetModel, nat)> {
    if p < s.len() {
        let tag = s[p as int];
        if tag == 0 {
            match dec_u64(s, p + 1) {
                None => None,
                Some((n, q)) => match dec_changes(s, q, n as nat) {
                    None => None,
                    Some((changes, q2)) => match dec_u64(s, q2) {
                        None => None,
                        Some((t, q3)) => Some((ChangesetModel::Full { changes, ts: Timestamp(t) }, q3)),
                    },
                },
            }
        } else if tag == 1 {
            Some((ChangesetModel::Cleared, p + 1))
        } else {
            None
        }
    } else {
        None
    }
}

/// Decodes a message at position `p`.
pub open spec fn dec_message(s: Seq<u8>, p: nat) -> Option<(MessageModel, nat)> {
    if p < s.len() {
        let tag = s[p as int];
        if tag == 0 {
            match dec_actor(s, p + 1) {
                None => None,
                Some((actor_id, at1)) => match dec_u64(s, at1) {
                    None => None,
                    Some((version, at2)) => match dec_changeset(s, at2) {
                        None => None,
                        Some((changeset, at3)) => match dec_u64(s, at3) {
                            None => None,
                            Some((t, at4)) => Some(
                                (
                                    MessageModel::Change {
                                        actor_id,
                                        version,
                                        changeset,
                                        ts: Timestamp(t),
                                    },
                                    at4,
                                ),
                            ),
                        },
                    },
                },
            }
        } else if tag == 1 {
            match dec_actor(s, p + 1) {
                None => None,
                Some((actor_id, at1)) => match dec_blob(s, at1) {
                    None => None,
                    Some((id, at2)) => match dec_blob(s, at2) {
                        None => None,
                        Some((filter, at3)) => match dec_u64(s, at3) {
                            None => None,
                            Some((t, at4)) => Some(
                                (
                                    MessageModel::UpsertSubscription {
                                        actor_id,
                                        id,
                                        filter,
                                        ts: Timestamp(t),
                                    },
                                    at4,
                                ),
                            ),
                        },
                    },
                },
            }
        } else {
            None
        }
    } else {
        None
    }
}

pub open spec fn change_fits(c: RowChangeModel) -> bool {
    c.table.len() < pow256(8) && c.pk.len() < pow256(8) && c.cid.len() < pow256(8) && value_fits(
        c.val,
    )
}

pub open spec fn changes_fit(cs: Seq<RowChangeModel>) -> bool {
    forall|i: int| 0 <= i < cs.len() ==> #[trigger] change_fits(cs[i])
}

pub open spec fn changeset_fits(c: ChangesetModel) -> bool {
    match c {
        ChangesetModel::Full { changes, .. } => changes.len() < pow256(8) && changes_fit(changes),
        ChangesetModel::Cleared => true,
    }
}

/// Every length in the message fits its 8-byte prefix; this holds of every
/// message built in memory.
pub open spec fn message_fits(m: MessageModel) -> bool {
    match m {
        MessageModel::Change { changeset, .. } => changeset_fits(changeset),
        MessageModel::UpsertSubscription { id, filter, .. } => id.len() < pow256(8) && filter.len()
            < pow256(8),
    }
}

pub proof fn lemma_dec_change(s: Seq<u8>, p: nat, c: RowChangeModel)
    requires
        change_fits(c),
        holds_at(s, p, enc_change(c)),
    ensures
        dec_change(s, p) == Some((c, p + enc_change(c).len())),
{
    let e1 = enc_blob(c.table);
    let e2 = enc_blob(c.pk);
    let e3 = enc_blob(c.cid);
    let e4 = enc_value(c.val);
    let e5 = enc_u64(c.col_version);
    let e6 = enc_u64(c.db_version);
    let e7 = enc_actor(c.site_id);
    assert(enc_change(c) == e1 + e2 + e3 + e4 + e5 + e6 + e7);
    lemma_holds_split(s, p, e1 + e2 + e3 + e4 + e5 + e6, e7);
    lemma_holds_split(s, p, e1 + e2 + e3 + e4 + e5, e6);
    lemma_holds_split(s, p, e1 + e2 + e3 + e4, e5);
    lemma_holds_split(s, p, e1 + e2 + e3, e4);
    lemma_holds_split(s, p, e1 + e2, e3);
    lemma_holds_split(s, p, e1, e2);
    lemma_dec_blob(s, p, c.table);
    lemma_dec_blob(s, p + e1.len(), c.pk);
    lemma_dec_blob(s, p + e1.len() + e2.len(), c.cid);
    lemma_dec_value(s, p + e1.len() + e2.len() + e3.len(), c.val);
    lemma_dec_u64(s, p + e1.len() + e2.len() + e3.len() + e4.len(), c.col_version);
    lemma_dec_u64(s, p + e1.len() + e2.len() + e3.len() + e4.len() + e5.len(), c.db_version);
    lemma_dec_actor(
        s,
        p + e1.len() + e2.len() + e3.len() + e4.len() + e5.len() + e6.len(),
        c.site_id,
    );
}

pub proof fn lemma_dec_changes(s: Seq<u8>, p: nat, cs: Seq<RowChangeModel>)
    requires
        changes_fit(cs),
        holds_at(s, p, enc_changes(cs)),
    ensures
        dec_changes(s, p, cs.len()) == Some((cs, p + enc_changes(cs).len())),
    decreases cs.len(),
{
    if cs.len() > 0 {
        let rest = cs.drop_first();
        lemma_holds_split(s, p, enc_change(cs[0]), enc_changes(rest));
        assert(change_fits(cs[0]));
        lemma_dec_change(s, p, cs[0]);
        assert(changes_fit(rest)) by {
            assert forall|i: int| 0 <= i < rest.len() implies #[trigger] change_fits(rest[i]) by {
                assert(rest[i] == cs[i + 1]);
            }
        }
        lemma_dec_changes(s, p + enc_change(cs[0]).len(), rest);
        assert(seq![cs[0]] + rest =~= cs);
    } else {
        assert(cs =~= Seq::<RowChangeModel>::empty());
    }
}

pub proof fn lemma_dec_changeset(s: Seq<u8>, p: nat, c: ChangesetModel)
    requires
        changeset_fits(c),
        holds_at(s, p, enc_changeset(c)),
    ensures
        dec_changeset(s, p) == Some((c, p + enc_changeset(c).len())),
{
    let e = enc_changeset(c);
    assert(s[p as int] == e[0]) by {
        assert(s.subrange(p as int, (p + e.len()) as int)[0] == s[p as int]);
    }
    match c {
        ChangesetModel::Full { changes, ts } => {
            let e1 = seq![0u8];
            let e2 = le_bytes(changes.len(), 8);
            let e3 = enc_changes(changes);
            let e4 = enc_u64(ts.0);
            assert(e == e1 + e2 + e3 + e4);
            lemma_holds_split(s, p, e1 + e2 + e3, e4);
            lemma_holds_split(s, p, e1 + e2, e3);
            lemma_holds_split(s, p, e1, e2);
            lemma_pow256_values();
            lemma_le_round_trip(changes.len(), 8);
            assert(e2 == enc_u64(changes.len() as u64));
            lemma_dec_u64(s, p + 1, changes.len() as u64);
            lemma_dec_changes(s, p + 1 + e2.len(), changes);
            lemma_dec_u64(s, p + 1 + e2.len() + e3.len(), ts.0);
        },
        ChangesetModel::Cleared => {
            assert(e.len() == 1);
        },
    }
}

proof fn lemma_dec_change_message(
    s: Seq<u8>,
    p: nat,
    actor_id: ActorId,
    version: u64,
    changeset: ChangesetModel,
    ts: Timestamp,
)
    requires
        changeset_fits(changeset),
        holds_at(s, p, enc_message(MessageModel::Change { actor_id, version, changeset, ts })),
    ensures
        dec_message(s, p) == Some(
            (
                MessageModel::Change { actor_id, version, changeset, ts },
                p + enc_message(MessageModel::Change { actor_id, version, changeset, ts }).len(),
            ),
        ),
{
    let e = enc_message(MessageModel::Change { actor_id, version, changeset, ts });
    assert(s[p as int] == e[0]) by {
        assert(s.subrange(p as int, (p + e.len()) as int)[0] == s[p as int]);
    }
    let e1 = seq![0u8];
    let e2 = enc_actor(actor_id);
    let e3 = enc_u64(version);
    let e4 = enc_changeset(changeset);
    let e5 = enc_u64(ts.0);
    assert(e == e1 + e2 + e3 + e4 + e5);
    lemma_holds_split(s, p, e1 + e2 + e3 + e4, e5);
    lemma_holds_split(s, p, e1 + e2 + e3, e4);
    lemma_holds_split(s, p, e1 + e2, e3);
    lemma_holds_split(s, p, e1, e2);
    lemma_dec_actor(s, p + 1, actor_id);
    lemma_dec_u64(s, p + 1 + e2.len(), version);
    lemma_dec_changeset(s, p + 1 + e2.len() + e3.len(), changeset);
    lemma_dec_u64(s, p + 1 + e2.len() + e3.len() + e4.len(), ts.0);
}

proof fn lemma_dec_upsert_message(
    s: Seq<u8>,
    p: nat,
    actor_id: ActorId,
    id: Seq<u8>,
    filter: Seq<u8>,
    ts: Timestamp,
)
    requires
        id.len() < pow256(8),
        filter.len() < pow256(8),
        holds_at(s, p, enc_message(MessageModel::UpsertSubscription { actor_id, id, filter, ts })),
    ensures
        dec_message(s, p) == Some(
            (
                MessageModel::UpsertSubscription { actor_id, id, filter, ts },
                p + enc_message(MessageModel::UpsertSubscription { actor_id, id, filter, ts }).len(),
            ),
        ),
{
    let e = enc_message(MessageModel::UpsertSubscription { actor_id, id, filter, ts });
    assert(s[p as int] == e[0]) by {
        assert(s.subrange(p as int, (p + e.len()) as int)[0] == s[p as int]);
    }
    let e1 = seq![1u8];
    let e2 = enc_actor(actor_id);
    let e3 = enc_blob(id);
    let e4 = enc_blob(filter);
    let e5 = enc_u64(ts.0);
    assert(e == e1 + e2 + e3 + e4 + e5);
    lemma_holds_split(s, p, e1 + e2 + e3 + e4, e5);
    lemma_holds_split(s, p, e1 + e2 + e3, e4);
    lemma_holds_split(s, p, e1 + e2, e3);
    lemma_holds_split(s, p, e1, e2);
    lemma_dec_actor(s, p + 1, actor_id);
    lemma_dec_blob(s, p + 1 + e2.len(), id);
    lemma_dec_blob(s, p + 1 + e2.len() + e3.len(), filter);
    lemma_dec_u64(s, p + 1 + e2.len() + e3.len() + e4.len(), ts.0);
}

/// Decoding the encoding of a message, wherever it stands, gives the message
/// back and stops right after it.
pub proof fn lemma_dec_message(s: Seq<u8>, p: nat, m: MessageModel)
    requires
        message_fits(m),
        holds_at(s, p, enc_message(m)),
    ensures
        dec_message(s, p) == Some((m, p + enc_message(m).len())),
{
    match m {
        MessageModel::Change { actor_id, version, changeset, ts } => {
            lemma_dec_change_message(s, p, actor_id, version, changeset, ts);
        },
        MessageModel::UpsertSubscription { actor_id, id, filter, ts } => {
            lemma_dec_upsert_message(s, p, actor_id, id, filter, ts);
        },
    }
}

// ---- executable encoding ----

pub proof fn lemma_enc_changes_push(cs: Seq<RowChangeModel>, c: RowChangeModel)
    ensures
        enc_changes(cs.push(c)) == enc_changes(cs) + enc_change(c),
    decreases cs.len(),
{
    if cs.len() == 0 {
        assert(cs.push(c).drop_first() =~= Seq::<RowChangeModel>::empty());
        assert(enc_changes(cs.push(c).drop_first()) == Seq::<u8>::empty());
        assert(enc_changes(cs) == Seq::<u8>::empty());
        assert(enc_changes(cs.push(c)) =~= enc_changes(cs) + enc_change(c));
    } else {
        lemma_enc_changes_push(cs.drop_first(), c);
        assert(cs.push(c).drop_first() =~= cs.drop_first().push(c));
        assert(enc_changes(cs.push(c)) =~= enc_changes(cs) + enc_change(c));
    }
}

fn write_u64(out: &mut Vec<u8>, x: u64)
    ensures
        final(out)@ == old(out)@ + enc_u64(x),
{
    proof {
        lemma_pow256_values();
    }
    push_le(out, x as u128, 8);
}

fn write_actor(out: &mut Vec<u8>, a: ActorId)
    ensures
        final(out)@ == old(out)@ + enc_actor(a),
{
    proof {
        lemma_pow256_values();
    }
    push_le(out, a.0, 16);
}

fn write_blob(out: &mut Vec<u8>, b: &Vec<u8>)
    ensures
        final(out)@ == old(out)@ + enc_blob(b@),
        b@.len() < pow256(8),
{
    proof {
        lemma_pow256_values();
    }
    let n = b.len();
    push_le(out, n as u64 as u128, 8);
    let ghost start = out@;
    let mut i: usize = 0;
    while i < n
        invariant
            i <= n == b@.len(),
            out@ == start + b@.subrange(0, i as int),
        decreases n - i,
    {
        out.push(b[i]);
        i = i + 1;
        assert(out@ =~= start + b@.subrange(0, i as int));
    }
    assert(b@.subrange(0, n as int) =~= b@);
}

fn write_value(out: &mut Vec<u8>, v: &SqlValue)
    ensures
        final(out)@ == old(out)@ + enc_value(v@),
        value_fits(v@),
{
    let ghost start = out@;
    match v {
        SqlValue::Null => {
            out.push(0u8);
        },
        SqlValue::Integer(i) => {
            out.push(1u8);
            let bits: u64 = if *i >= 0 {
                *i as u64
            } else {
                u64::MAX - ((-(*i + 1)) as u64)
            };
            assert(bits == i64_bits(*i));
            write_u64(out, bits);
        },
        SqlValue::Real(r) => {
            out.push(2u8);
            write_u64(out, *r);
        },
        SqlValue::Text(t) => {
            out.push(3u8);
            write_blob(out, t);
        },
        SqlValue::Blob(b) => {
            out.push(4u8);
            write_blob(out, b);
        },
    }
    assert(out@ =~= start + enc_value(v@));
}

fn write_change(out: &mut Vec<u8>, c: &RowChange)
    ensures
        final(out)@ == old(out)@ + enc_change(c@),
        change_fits(c@),
{
    let ghost start = out@;
    write_blob(out, &c.table);
    write_blob(out, &c.pk);
    write_blob(out, &c.cid);
    write_value(out, &c.val);
    write_u64(out, c.col_version);
    write_u64(out, c.db_version);
    write_actor(out, c.site_id);
    assert(out@ =~= start + enc_change(c@));
}

fn write_changes(out: &mut Vec<u8>, cs: &Vec<RowChange>)
    ensures
        final(out)@ == old(out)@ + enc_changes(changes_view(cs@)),
        changes_fit(changes_view(cs@)),
{
    let ghost start = out@;
    let ghost model = changes_view(cs@);
    let mut i: usize = 0;
    while i < cs.len()
        invariant
            i <= cs@.len(),
            model == changes_view(cs@),
            out@ == start + enc_changes(model.subrange(0, i as int)),
            forall|j: int| 0 <= j < i ==> #[trigger] change_fits(model[j]),
        decreases cs@.len() - i,
    {
        write_change(out, &cs[i]);
        proof {
            lemma_enc_changes_push(model.subrange(0, i as int), cs@[i as int]@);
            assert(model.subrange(0, i as int).push(cs@[i as int]@) =~= model.subrange(
                0,
                i + 1,
            ));
        }
        i = i + 1;
    }
    assert(model.subrange(0, i as int) =~= model);
}

fn write_changeset(out: &mut Vec<u8>, c: &Changeset)
    ensures
        final(out)@ == old(out)@ + enc_changeset(c@),
        changeset_fits(c@),
{
    let ghost start = out@;
    match c {
        Changeset::Full { changes, ts } => {
            out.push(0u8);
            write_u64(out, changes.len() as u64);
            write_changes(out, changes);
            write_u64(out, ts.0);
            proof {
                lemma_pow256_values();
            }
        },
        Changeset::Cleared => {
            out.push(1u8);
        },
    }
    assert(out@ =~= start + enc_changeset(c@));
}

/// Encodes a message.
pub fn encode_message(m: &Message) -> (r: Vec<u8>)
    ensures
        r@ == enc_message(m@),
        message_fits(m@),
{
    let mut out: Vec<u8> = Vec::new();
    match m {
        Message::Change { actor_id, version, changeset, ts } => {
            out.push(0u8);
            write_actor(&mut out, *actor_id);
            write_u64(&mut out, *version);
            write_changeset(&mut out, changeset);
            write_u64(&mut out, ts.0);
        },
        Message::UpsertSubscription { actor_id, id, filter, ts } => {
            out.push(1u8);
            write_actor(&mut out, *actor_id);
            write_blob(&mut out, id);
            write_blob(&mut out, filter);
            write_u64(&mut out, ts.0);
        },
    }
    assert(out@ =~= enc_message(m@));
    out
}

// ---- executable decoding ----

fn read_u64(buf: &[u8], p: usize) -> (r: Option<(u64, usize)>)
    ensures
        match r {
            Some((x, q)) => dec_u64(buf@, p as nat) == Some((x, q as nat)) && q <= buf@.len(),
            None => dec_u64(buf@, p as nat) is None,
        },
{
    if p <= buf.len() && buf.len() - p >= 8 {
        let x = read_le(buf, p, 8);
        proof {
            lemma_pow256_values();
            lemma_le_value_bound(buf@.subrange(p as int, p + 8));
        }
        Some((x as u64, p + 8))
    } else {
        None
    }
}

fn read_actor(buf: &[u8], p: usize) -> (r: Option<(ActorId, usize)>)
    ensures
        match r {
            Some((a, q)) => dec_actor(buf@, p as nat) == Some((a, q as nat)) && q <= buf@.len(),
            None => dec_actor(buf@, p as nat) is None,
        },
{
    if p <= buf.len() && buf.len() - p >= 16 {
        let x = read_le(buf, p, 16);
        Some((ActorId(x), p + 16))
    } else {
        None
    }
}

fn read_blob(buf: &[u8], p: usize) -> (r: Option<(Vec<u8>, usize)>)
    ensures
        match r {
            Some((b, q)) => dec_blob(buf@, p as nat) == Some((b@, q as nat)) && q <= buf@.len(),
            None => dec_blob(buf@, p as nat) is None,
        },
{
    match read_u64(buf, p) {
        None => None,
        Some((n, q)) => {
            if (buf.len() - q) as u64 >= n {
                let e = q + n as usize;
                let b = vstd::slice::slice_to_vec(vstd::slice::slice_subrange(buf, q, e));
                Some((b, e))
            } else {
                None
            }
        },
    }
}

fn read_value(buf: &[u8], p: usize) -> (r: Option<(SqlValue, usize)>)
    ensures
        match r {
            Some((v, q)) => dec_value(buf@, p as nat) == Some((v@, q as nat)) && q <= buf@.len(),
            None => dec_value(buf@, p as nat) is None,
        },
{
    if p >= buf.len() {
        return None;
    }
    let tag = buf[p];
    if tag == 0 {
        Some((SqlValue::Null, p + 1))
    } else if tag == 1 {
        match read_u64(buf, p + 1) {
            None => None,
            Some((u, q)) => {
                let i: i64 = if u < 0x8000_0000_0000_0000 {
                    u as i64
                } else {
                    -((u64::MAX - u) as i64) - 1
                };
                assert(i == bits_i64(u));
                Some((SqlValue::Integer(i), q))
            },
        }
    } else if tag == 2 {
        match read_u64(buf, p + 1) {
            None => None,
            Some((u, q)) => Some((SqlValue::Real(u), q)),
        }
    } else if tag == 3 {
        match read_blob(buf, p + 1) {
            None => None,
            Some((b, q)) => Some((SqlValue::Text(b), q)),
        }
    } else if tag == 4 {
        match read_blob(buf, p + 1) {
            None => None,
            Some((b, q)) => Some((SqlValue::Blob(b), q)),
        }
    } else {
        None
    }
}

fn read_change(buf: &[u8], p: usize) -> (r: Option<(RowChange, usize)>)
    ensures
        match r {
            Some((c, q)) => dec_change(buf@, p as nat) == Some((c@, q as nat)) && q <= buf@.len(),
            None => dec_change(buf@, p as nat) is None,
        },
{
    let (table, at1) = match read_blob(buf, p) {
        None => return None,
        Some(x) => x,
    };
    let (pk, at2) = match read_blob(buf, at1) {
        None => return None,
        Some(x) => x,
    };
    let (cid, at3) = match read_blob(buf, at2) {
        None => return None,
        Some(x) => x,
    };
    let (val, at4) = match read_value(buf, at3) {
        None => return None,
        Some(x) => x,
    };
    let (col_version, at5) = match read_u64(buf, at4) {
        None => return None,
        Some(x) => x,
    };
    let (db_version, at6) = match read_u64(buf, at5) {
        None => return None,
        Some(x) => x,
    };
    let (site_id, at7) = match read_actor(buf, at6) {
        None => return None,
        Some(x) => x,
    };
    Some((RowChange { table, pk, cid, val, col_version, db_version, site_id }, at7))
}

fn read_changes(buf: &[u8], p: usize, n: u64) -> (r: Option<(Vec<RowChange>, usize)>)
    requires
        p <= buf@.len(),
    ensures
        match r {
            Some((cs, q)) => dec_changes(buf@, p as nat, n as nat) == Some(
                (changes_view(cs@), q as nat),
            ) && q <= buf@.len(),
            None => dec_changes(buf@, p as nat, n as nat) is None,
        },
{
    let mut out: Vec<RowChange> = Vec::new();
    let mut pos: usize = p;
    let mut i: u64 = 0;
    while i < n
        invariant
            i <= n,
            pos <= buf@.len(),
            dec_changes(buf@, p as nat, n as nat) == prepend(
                changes_view(out@),
                dec_changes(buf@, pos as nat, (n - i) as nat),
            ),
        decreases n - i,
    {
        match read_change(buf, pos) {
            None => {
                return None;
            },
            Some((c, q)) => {
                let ghost before = changes_view(out@);
                let ghost cm = c@;
                out.push(c);
                proof {
                    assert(changes_view(out@) =~= before + seq![cm]);
                    let rest = dec_changes(buf@, q as nat, (n - i - 1) as nat);
                    match rest {
                        Some((cs, e)) => {
                            assert(before + (seq![cm] + cs) =~= (before + seq![cm]) + cs);
                        },
                        None => {},
                    }
                }
                pos = q;
                i = i + 1;
            },
        }
    }
    assert(changes_view(out@) + Seq::<RowChangeModel>::empty() =~= changes_view(out@));
    Some((out, pos))
}

fn read_changeset(buf: &[u8], p: usize) -> (r: Option<(Changeset, usize)>)
    ensures
        match r {
            Some((c, q)) => dec_changeset(buf@, p as nat) == Some((c@, q as nat)) && q <= buf@.len(),
            None => dec_changeset(buf@, p as nat) is None,
        },
{
    if p >= buf.len() {
        return None;
    }
    let tag = buf[p];
    if tag == 0 {
        let (n, q) = match read_u64(buf, p + 1) {
            None => return None,
            Some(x) => x,
        };
        let (changes, q2) = match read_changes(buf, q, n) {
            None => return None,
            Some(x) => x,
        };
        let (t, q3) = match read_u64(buf, q2) {
            None => return None,
            Some(x) => x,
        };
        Some((Changeset::Full { changes, ts: Timestamp(t) }, q3))
    } else if tag == 1 {
        Some((Changeset::Cleared, p + 1))
    } else {
        None
    }
}

fn read_message(buf: &[u8], p: usize) -> (r: Option<(Message, usize)>)
    ensures
        match r {
            Some((m, q)) => dec_message(buf@, p as nat) == Some((m@, q as nat)) && q <= buf@.len(),
            None => dec_message(buf@, p as nat) is None,
        },
{
    if p >= buf.len() {
        return None;
    }
    let tag = buf[p];
    if tag == 0 {
        let (actor_id, at1) = match read_actor(buf, p + 1) {
            None => return None,
            Some(x) => x,
        };
        let (version, at2) = match read_u64(buf, at1) {
            None => return None,
            Some(x) => x,
        };
        let (changeset, at3) = match read_changeset(buf, at2) {
            None => return None,
            Some(x) => x,
        };
        let (t, at4) = match read_u64(buf, at3) {
            None => return None,
            Some(x) => x,
        };
        Some((Message::Change { actor_id, version, changeset, ts: Timestamp(t) }, at4))
    } else if tag == 1 {
        let (actor_id, at1) = match read_actor(buf, p + 1) {
            None => return None,
            Some(x) => x,
        };
        let (id, at2) = match read_blob(buf, at1) {
            None => return None,
            Some(x) => x,
        };
        let (filter, at3) = match read_blob(buf, at2) {
            None => return None,
            Some(x) => x,
        };
        let (t, at4) = match read_u64(buf, at3) {
            None => return None,
            Some(x) => x,
        };
        Some((Message::UpsertSubscription { actor_id, id, filter, ts: Timestamp(t) }, at4))
    } else {
        None
    }
}

/// Why a frame's body is not a message.
#[derive(Clone, Copy, Debug, PartialEq, Eq, Structural)]
pub enum MessageDecodeError {
    /// The bytes do not start with a message.
    Malformed,
    /// A message was read but bytes are left after it.
    TrailingBytes,
}

/// The body holds exactly one message, and this is it.
pub open spec fn body_is(body: Seq<u8>, m: MessageModel) -> bool {
    dec_message(body, 0) == Some((m, body.len()))
}

/// For every message, decoding its encoding gives the message back, with no
/// byte left over.
pub proof fn lemma_message_round_trip(m: MessageModel)
    requires
        message_fits(m),
    ensures
        body_is(enc_message(m), m),
{
    let e = enc_message(m);
    assert(e.subrange(0, e.len() as int) =~= e);
    lemma_dec_message(e, 0, m);
}

/// Decodes a body that must hold exactly one message.
pub fn decode_message(body: &[u8]) -> (r: Result<Message, MessageDecodeError>)
    ensures
        match r {
            Ok(m) => body_is(body@, m@),
            Err(MessageDecodeError::Malformed) => dec_message(body@, 0) is None,
            Err(MessageDecodeError::TrailingBytes) => match dec_message(body@, 0) {
                Some((_, q)) => q < body@.len(),
                None => false,
            },
        },
{
    match read_message(body, 0) {
        None => Err(MessageDecodeError::Malformed),
        Some((m, q)) => {
            if q == body.len() {
                Ok(m)
            } else {
                Err(MessageDecodeError::TrailingBytes)
            }
        },
    }
}

} // verus!
