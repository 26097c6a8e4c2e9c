//! Anti-entropy: what a node tells a peer it has and lacks, which peer to
//! ask, and what to do after each attempt.
use vstd::prelude::*;
use crate::bookie::{covered, is_need, last_of, Bookie, KnownVersion};
use crate::members::PeerAddr;
use crate::types::{ActorId, Changeset, Message};

verus! {

/// What a node has and lacks: for each actor it knows, its highest version
/// and the versions below that it is missing.
pub struct SyncSummary {
    pub actor_id: ActorId,
    pub heads: Vec<(ActorId, u64)>,
    pub need: Vec<(ActorId, Vec<(u64, u64)>)>,
}

/// Builds the summary of what `bookie` holds.
pub fn generate_sync(bookie: &Bookie, actor_id: ActorId) -> (r: SyncSummary)
    requires
        bookie.wf(),
    ensures
        r.actor_id == actor_id,
        r.heads@.len() == r.need@.len(),
        forall|k: int|
            0 <= k < r.heads@.len() ==> {
                &&& last_of(bookie.versions((#[trigger] r.heads@[k]).0)) == Some(r.heads@[k].1)
                &&& r.need@[k].0 == r.heads@[k].0
                &&& is_need(r.need@[k].1@, bookie.versions(r.heads@[k].0), r.heads@[k].1)
            },
        forall|a: ActorId|
            #[trigger] last_of(bookie.versions(a)) is Some ==> exists|k: int|
                0 <= k < r.heads@.len() && (#[trigger] r.heads@[k]).0 == a,
        forall|k: int, l: int| 0 <= k < l < r.heads@.len() ==> r.heads@[k].0 != r.heads@[l].0,
{
    let mut heads: Vec<(ActorId, u64)> = Vec::new();
    let mut need: Vec<(ActorId, Vec<(u64, u64)>)> = Vec::new();
    let mut i: usize = 0;
    while i < bookie.actors.len()
        invariant
            bookie.wf(),
            i <= bookie.actors@.len(),
            heads@.len() == need@.len(),
            forall|k: int|
                0 <= k < heads@.len() ==> {
                    &&& last_of(bookie.versions((#[trigger] heads@[k]).0)) == Some(heads@[k].1)
                    &&& need@[k].0 == heads@[k].0
                    &&& is_need(need@[k].1@, bookie.versions(heads@[k].0), heads@[k].1)
                    &&& exists|j: int| 0 <= j < i && (#[trigger] bookie.actors@[j]).0 == heads@[k].0
                },
            forall|j: int|
                0 <= j < i && #[trigger] last_of(bookie.actors@[j].1@) is Some ==> exists|k: int|
                    0 <= k < heads@.len() && (#[trigger] heads@[k]).0 == bookie.actors@[j].0,
            forall|k: int, l: int| 0 <= k < l < heads@.len() ==> heads@[k].0 != heads@[l].0,
        decreases bookie.actors@.len() - i,
    {
        let a = bookie.actors[i].0;
        proof {
            bookie.lemma_versions_at(i as int);
        }
        match bookie.actors[i].1.last() {
            None => {},
            Some(h) => {
                let rs = bookie.actors[i].1.need(h);
                let ghost hb = heads@;
                let ghost nb = need@;
                heads.push((a, h));
                need.push((a, rs));
                proof {
                    let n = hb.len() as int;
                    assert forall|k: int| 0 <= k < heads@.len() implies {
                        &&& last_of(bookie.versions((#[trigger] heads@[k]).0)) == Some(heads@[k].1)
                        &&& need@[k].0 == heads@[k].0
                        &&& is_need(need@[k].1@, bookie.versions(heads@[k].0), heads@[k].1)
                        &&& exists|j: int| 0 <= j < i + 1 && (#[trigger] bookie.actors@[j]).0 == heads@[k].0
                    } by {
                        if k < n {
                            assert(heads@[k] == hb[k]);
                            assert(need@[k] == nb[k]);
                            let j = choose|j: int| 0 <= j < i && (#[trigger] bookie.actors@[j]).0 == hb[k].0;
                            assert(0 <= j < i + 1 && bookie.actors@[j].0 == heads@[k].0);
                        } else {
                            assert(bookie.actors@[i as int].0 == heads@[k].0);
                        }
                    }
                    assert forall|j: int|
                        0 <= j < i + 1 && #[trigger] last_of(bookie.actors@[j].1@) is Some implies exists|k: int|
                        0 <= k < heads@.len() && (#[trigger] heads@[k]).0 == bookie.actors@[j].0 by {
                        if j < i {
                            let k = choose|k: int| 0 <= k < hb.len() && (#[trigger] hb[k]).0 == bookie.actors@[j].0;
                            assert(heads@[k] == hb[k]);
                        } else {
                            assert(heads@[n].0 == bookie.actors@[j].0);
                        }
                    }
                    assert forall|k: int, l: int| 0 <= k < l < heads@.len() implies heads@[k].0 != heads@[l].0 by {
                        if l == n {
                            assert(heads@[k] == hb[k]);
                            let j = choose|j: int| 0 <= j < i && (#[trigger] bookie.actors@[j]).0 == hb[k].0;
                            assert(bookie.actors@[j].0 != bookie.actors@[i as int].0);
                        } else {
                            assert(heads@[k] == hb[k] && heads@[l] == hb[l]);
                        }
                    }
                }
            },
        }
        i = i + 1;
    }
    proof {
        assert forall|a: ActorId|
            #[trigger] last_of(bookie.versions(a)) is Some implies exists|k: int|
                0 <= k < heads@.len() && (#[trigger] heads@[k]).0 == a by {
            if bookie.has_actor(a) {
                let j = choose|j: int| 0 <= j < bookie.actors@.len() && (#[trigger] bookie.actors@[j]).0 == a;
                bookie.lemma_versions_at(j);
                assert(last_of(bookie.actors@[j].1@) is Some);
            } else {
                assert(bookie.versions(a) == Map::<u64, crate::bookie::KnownVersion>::empty());
                crate::bookie::lemma_last_of_empty(bookie.versions(a));
            }
        }
    }
    SyncSummary { actor_id, heads, need }
}

/// A node that knows every version of an actor up to `head` needs none of
/// them: the missing ranges are empty.
pub proof fn lemma_complete_needs_nothing(rs: Seq<(u64, u64)>, m: Map<u64, KnownVersion>, head: u64)
    requires
        is_need(rs, m, head),
        forall|v: u64| 1 <= v <= head ==> #[trigger] m.contains_key(v),
    ensures
        rs.len() == 0,
{
    if rs.len() > 0 {
        let v = rs[0].0;
        assert(1 <= v <= head);
        assert(covered(rs, v as int));
        assert(m.contains_key(v));
    }
}

/// How many versions inclusive ranges hold (a reversed range holds none).
pub open spec fn ranges_len(rs: Seq<(u64, u64)>) -> int
    decreases rs.len(),
{
    if rs.len() == 0 {
        0
    } else {
        let r = rs.last();
        ranges_len(rs.drop_last()) + if r.0 <= r.1 {
            r.1 - r.0 + 1
        } else {
            0
        }
    }
}

pub proof fn lemma_ranges_len_nonneg(rs: Seq<(u64, u64)>)
    ensures
        ranges_len(rs) >= 0,
    decreases rs.len(),
{
    if rs.len() > 0 {
        lemma_ranges_len_nonneg(rs.drop_last());
    }
}

/// `n`, or `u64::MAX` when `n` is larger.
pub open spec fn saturate(n: int) -> u64 {
    if n > u64::MAX {
        u64::MAX
    } else {
        n as u64
    }
}

fn count_ranges(rs: &Vec<(u64, u64)>) -> (r: u64)
    ensures
        r == saturate(ranges_len(rs@)),
{
    let mut total: u64 = 0;
    let mut i: usize = 0;
    while i < rs.len()
        invariant
            i <= rs@.len(),
            total == saturate(ranges_len(rs@.subrange(0, i as int))),
        decreases rs@.len() - i,
    {
        let (lo, hi) = rs[i];
        proof {
            assert(rs@.subrange(0, i + 1).drop_last() =~= rs@.subrange(0, i as int));
            lemma_ranges_len_nonneg(rs@.subrange(0, i as int));
        }
        if lo <= hi {
            let len = hi - lo;
            if total == u64::MAX || u64::MAX - total <= len {
                total = u64::MAX;
            } else {
                total = total + len + 1;
            }
        }
        i = i + 1;
    }
    assert(rs@.subrange(0, i as int) =~= rs@);
    total
}

impl SyncSummary {
    /// The summary's missing ranges for `a`: those of its first entry for
    /// `a`, or none.
    pub open spec fn need_for(&self, a: ActorId) -> Seq<(u64, u64)> {
        if exists|k: int| 0 <= k < self.need@.len() && (#[trigger] self.need@[k]).0 == a {
            self.need@[choose|k: int|
                0 <= k < self.need@.len() && (#[trigger] self.need@[k]).0 == a && forall|l: int|
                    0 <= l < k ==> self.need@[l].0 != a].1@
        } else {
            Seq::empty()
        }
    }

    /// How many versions of `a` are missing (saturating).
    pub fn need_len_for_actor(&self, a: ActorId) -> (r: u64)
        ensures
            r == saturate(ranges_len(self.need_for(a))),
    {
        let mut k: usize = 0;
        while k < self.need.len()
            invariant
                k <= self.need@.len(),
                forall|l: int| 0 <= l < k ==> (#[trigger] self.need@[l]).0 != a,
            decreases self.need@.len() - k,
        {
            if self.need[k].0 == a {
                proof {
                    let c = choose|c: int|
                        0 <= c < self.need@.len() && (#[trigger] self.need@[c]).0 == a && forall|l: int|
                            0 <= l < c ==> self.need@[l].0 != a;
                    assert(0 <= k < self.need@.len() && self.need@[k as int].0 == a && forall|l: int|
                        0 <= l < k ==> self.need@[l].0 != a);
                    if c < k {
                    } else if c > k {
                        assert(self.need@[k as int].0 != a);
                    }
                }
                return count_ranges(&self.need[k].1);
            }
            k = k + 1;
        }
        0
    }
}

/// The peer to ask among sampled candidates: the first of those whose
/// versions this node lacks the most of.
pub fn choose_sync_peer(sync: &SyncSummary, choices: &Vec<(ActorId, PeerAddr)>) -> (r: Option<
    (ActorId, PeerAddr),
>)
    ensures
        choices@.len() == 0 <==> r is None,
        r matches Some(c) ==> (exists|i: int|
            0 <= i < choices@.len() && choices@[i] == c && (forall|j: int|
                0 <= j < choices@.len() ==> saturate(ranges_len(sync.need_for(choices@[j].0)))
                    <= saturate(ranges_len(sync.need_for(c.0)))) && (forall|j: int|
                0 <= j < i ==> saturate(ranges_len(sync.need_for(choices@[j].0))) < saturate(
                    ranges_len(sync.need_for(c.0)),
                ))),
{
    if choices.len() == 0 {
        return None;
    }
    let mut best: usize = 0;
    let mut best_len = sync.need_len_for_actor(choices[0].0);
    let mut i: usize = 1;
    while i < choices.len()
        invariant
            1 <= i <= choices@.len(),
            best < i,
            best_len == saturate(ranges_len(sync.need_for(choices@[best as int].0))),
            forall|j: int|
                0 <= j < i ==> saturate(ranges_len(sync.need_for(choices@[j].0))) <= best_len,
            forall|j: int|
                0 <= j < best ==> saturate(ranges_len(sync.need_for(choices@[j].0))) < best_len,
        decreases choices@.len() - i,
    {
        let l = sync.need_len_for_actor(choices[i].0);
        if l > best_len {
            best = i;
            best_len = l;
        }
        i = i + 1;
    }
    Some(choices[best])
}

/// Relies on rand's `seq::index::sample` (with `thread_rng`): exactly
/// `amount` distinct indices below `length`, drawn at random.
#[verifier::external_body]
pub(crate) fn sample_indices(length: usize, amount: usize) -> (r: Vec<usize>)
    requires
        amount <= length,
    ensures
        r@.len() == amount,
        forall|i: int| 0 <= i < r@.len() ==> #[trigger] r@[i] < length,
        forall|i: int, j: int| 0 <= i < j < r@.len() ==> r@[i] != r@[j],
{
    rand::seq::index::sample(&mut rand::thread_rng(), length, amount).into_vec()
}

/// Picks the peer to sync with: two candidates drawn at random, and of
/// those the one this node lacks the most versions of. None only when
/// there is no candidate.
pub fn pick_sync_peer(sync: &SyncSummary, candidates: &Vec<(ActorId, PeerAddr)>) -> (r: Option<
    (ActorId, PeerAddr),
>)
    ensures
        candidates@.len() == 0 <==> r is None,
        r matches Some(c) ==> candidates@.contains(c),
{
    let amount: usize = if candidates.len() < 2 {
        candidates.len()
    } else {
        2
    };
    let picks = sample_indices(candidates.len(), amount);
    let mut choices: Vec<(ActorId, PeerAddr)> = Vec::new();
    let mut i: usize = 0;
    while i < picks.len()
        invariant
            i <= picks@.len() == amount,
            forall|j: int| 0 <= j < picks@.len() ==> #[trigger] picks@[j] < candidates@.len(),
            choices@.len() == i,
            forall|j: int| 0 <= j < i ==> #[trigger] candidates@.contains(choices@[j]),
        decreases picks@.len() - i,
    {
        let c = candidates[picks[i]];
        assert(candidates@[picks@[i as int] as int] == c);
        choices.push(c);
        i = i + 1;
    }
    let r = choose_sync_peer(sync, &choices);
    proof {
        if let Some(c) = r {
            let k = choose|k: int| 0 <= k < choices@.len() && choices@[k] == c && (forall|j: int|
                0 <= j < choices@.len() ==> saturate(ranges_len(sync.need_for(choices@[j].0)))
                    <= saturate(ranges_len(sync.need_for(c.0)))) && (forall|j: int|
                0 <= j < k ==> saturate(ranges_len(sync.need_for(choices@[j].0))) < saturate(
                    ranges_len(sync.need_for(c.0)),
                ));
            assert(candidates@.contains(choices@[k]));
        }
    }
    r
}

/// Why a sync attempt failed.
pub enum SyncClientError {
    /// The engine failed.
    Rusqlite(String),
    /// The peer answered with this status.
    Status(u16),
    /// The peer is busy.
    Unavailable,
    /// The summary could not be serialized.
    Serde(String),
    /// The request failed.
    Hyper(String),
    /// No answer in time.
    RequestTimedOut,
    /// Reading the answer failed.
    Io(String),
    /// No connection could be had from the pool.
    Pool(String),
    /// No peer to ask.
    NoGoodCandidate,
    /// A message in the answer could not be read.
    Decoded(crate::wire::MessageDecodeError),
}

impl SyncClientError {
    /// The peer is busy: worth another try soon.
    pub fn is_unavailable(&self) -> (r: bool)
        ensures
            r == (self is Unavailable),
    {
        match self {
            SyncClientError::Unavailable => true,
            _ => false,
        }
    }
}

/// What an answer's status means: 200 goes on, 503 means a busy peer, any
/// other is an error.
pub fn check_sync_status(status: u16) -> (r: Result<(), SyncClientError>)
    ensures
        status == 200 ==> r is Ok,
        status == 503 ==> r matches Err(SyncClientError::Unavailable),
        status != 200 && status != 503 ==> (r matches Err(SyncClientError::Status(s)) && s == status),
{
    if status == 200 {
        Ok(())
    } else if status == 503 {
        Err(SyncClientError::Unavailable)
    } else {
        Err(SyncClientError::Status(status))
    }
}

/// How many operations a received message counts for: the changes of a
/// changeset, or one.
pub fn message_op_count(msg: &Message) -> (r: usize)
    ensures
        r == match msg {
            Message::Change { changeset: Changeset::Full { changes, .. }, .. } => changes@.len(),
            Message::Change { changeset: Changeset::Cleared, .. } => 0,
            Message::UpsertSubscription { .. } => 1,
        },
{
    match msg {
        Message::Change { changeset, .. } => changeset.len(),
        Message::UpsertSubscription { .. } => 1,
    }
}

/// How many times a busy peer is tried again within one sync cycle.
pub const MAX_SYNC_RETRIES: u32 = 5;

/// What a sync cycle does after an attempt.
pub enum SyncStep {
    /// The attempt synced this many operations; the cycle is over.
    Done(usize),
    /// The peer was busy: wait a backoff delay, then pick a peer again.
    Retry { retries_left: u32 },
    /// Give up until the next cycle.
    GiveUp(SyncClientError),
}

/// Decides the next step of a sync cycle from the outcome of an attempt
/// and the retries left.
pub fn after_sync_attempt(outcome: Result<usize, SyncClientError>, retries_left: u32) -> (r:
    SyncStep)
    ensures
        match outcome {
            Ok(n) => r matches SyncStep::Done(m) && m == n,
            Err(SyncClientError::Unavailable) => if retries_left > 0 {
                r matches SyncStep::Retry { retries_left: k } && k == retries_left - 1
            } else {
                r matches SyncStep::GiveUp(SyncClientError::Unavailable)
            },
            Err(e) => r matches SyncStep::GiveUp(f) && f == e,
        },
{
    match outcome {
        Ok(n) => SyncStep::Done(n),
        Err(e) => {
            if e.is_unavailable() && retries_left > 0 {
                SyncStep::Retry { retries_left: retries_left - 1 }
            } else {
                SyncStep::GiveUp(e)
            }
        },
    }
}

impl SyncSummary {
    /// The summary's highest version of `a`: that of its first entry for
    /// `a`, if any.
    pub open spec fn head_for(&self, a: ActorId) -> Option<u64> {
        if exists|k: int| 0 <= k < self.heads@.len() && (#[trigger] self.heads@[k]).0 == a {
            Some(
                self.heads@[choose|k: int|
                    0 <= k < self.heads@.len() && (#[trigger] self.heads@[k]).0 == a && forall|l: int|
                        0 <= l < k ==> self.heads@[l].0 != a].1,
            )
        } else {
            None
        }
    }

    /// The node that sent the summary lacks version `v` of `a`: it knows
    /// nothing of `a`, or `v` is past its head, or among its missing ranges.
    pub open spec fn lacks(&self, a: ActorId, v: u64) -> bool {
        match self.head_for(a) {
            None => true,
            Some(h) => v > h || covered(self.need_for(a), v as int),
        }
    }

    fn head_for_actor(&self, a: ActorId) -> (r: Option<u64>)
        ensures
            r == self.head_for(a),
    {
        let mut k: usize = 0;
        while k < self.heads.len()
            invariant
                k <= self.heads@.len(),
                forall|l: int| 0 <= l < k ==> (#[trigger] self.heads@[l]).0 != a,
            decreases self.heads@.len() - k,
        {
            if self.heads[k].0 == a {
                proof {
                    let c = choose|c: int|
                        0 <= c < self.heads@.len() && (#[trigger] self.heads@[c]).0 == a && forall|l: int|
                            0 <= l < c ==> self.heads@[l].0 != a;
                    assert(0 <= k < self.heads@.len() && self.heads@[k as int].0 == a && forall|l: int|
                        0 <= l < k ==> self.heads@[l].0 != a);
                    if c > k {
                        assert(self.heads@[k as int].0 != a);
                    }
                }
                return Some(self.heads[k].1);
            }
            k = k + 1;
        }
        None
    }

    fn need_ranges_for(&self, a: ActorId) -> (r: Option<&Vec<(u64, u64)>>)
        ensures
            match r {
                Some(rs) => rs@ == self.need_for(a),
                None => self.need_for(a) == Seq::<(u64, u64)>::empty(),
            },
    {
        let mut k: usize = 0;
        while k < self.need.len()
            invariant
                k <= self.need@.len(),
                forall|l: int| 0 <= l < k ==> (#[trigger] self.need@[l]).0 != a,
            decreases self.need@.len() - k,
        {
            if self.need[k].0 == a {
                proof {
                    let c = choose|c: int|
                        0 <= c < self.need@.len() && (#[trigger] self.need@[c]).0 == a && forall|l: int|
                            0 <= l < c ==> self.need@[l].0 != a;
                    assert(0 <= k < self.need@.len() && self.need@[k as int].0 == a && forall|l: int|
                        0 <= l < k ==> self.need@[l].0 != a);
                    if c > k {
                        assert(self.need@[k as int].0 != a);
                    }
                }
                return Some(&self.need[k].1);
            }
            k = k + 1;
        }
        None
    }

    /// Does the node that sent the summary lack version `v` of `a`?
    pub fn lacks_version(&self, a: ActorId, v: u64) -> (r: bool)
        ensures
            r == self.lacks(a, v),
    {
        match self.head_for_actor(a) {
            None => true,
            Some(h) => {
                if v > h {
                    return true;
                }
                match self.need_ranges_for(a) {
                    None => false,
                    Some(rs) => {
                        let mut i: usize = 0;
                        while i < rs.len()
                            invariant
                                i <= rs@.len(),
                                self.head_for(a) == Some(h),
                                v <= h,
                                rs@ == self.need_for(a),
                                forall|j: int| 0 <= j < i ==> !((#[trigger] rs@[j]).0 <= v <= rs@[j].1),
                            decreases rs@.len() - i,
                        {
                            if rs[i].0 <= v && v <= rs[i].1 {
                                assert(covered(rs@, v as int)) by {
                                    assert(rs@[i as int].0 <= v <= rs@[i as int].1);
                                }
                                return true;
                            }
                            i = i + 1;
                        }
                        false
                    },
                }
            },
        }
    }
}

/// The versions this node knows and the sender of `sync` lacks, each with
/// its state here: what a sync answer carries, in the order of the Bookie.
pub fn versions_to_send(bookie: &Bookie, sync: &SyncSummary) -> (r: Vec<(ActorId, u64, KnownVersion)>)
    requires
        bookie.wf(),
    ensures
        forall|k: int|
            0 <= k < r@.len() ==> {
                &&& bookie.versions((#[trigger] r@[k]).0).contains_key(r@[k].1)
                &&& bookie.versions(r@[k].0)[r@[k].1] == r@[k].2
                &&& sync.lacks(r@[k].0, r@[k].1)
            },
        forall|a: ActorId, v: u64|
            #[trigger] bookie.versions(a).contains_key(v) && sync.lacks(a, v) ==> exists|k: int|
                0 <= k < r@.len() && (#[trigger] r@[k]).0 == a && r@[k].1 == v,
{
    let mut out: Vec<(ActorId, u64, KnownVersion)> = Vec::new();
    let mut i: usize = 0;
    while i < bookie.actors.len()
        invariant
            bookie.wf(),
            i <= bookie.actors@.len(),
            forall|k: int|
                0 <= k < out@.len() ==> {
                    &&& bookie.versions((#[trigger] out@[k]).0).contains_key(out@[k].1)
                    &&& bookie.versions(out@[k].0)[out@[k].1] == out@[k].2
                    &&& sync.lacks(out@[k].0, out@[k].1)
                },
            forall|x: int, v: u64|
                0 <= x < i && #[trigger] bookie.actors@[x].1@.contains_key(v) && sync.lacks(
                    bookie.actors@[x].0,
                    v,
                ) ==> exists|k: int|
                    0 <= k < out@.len() && (#[trigger] out@[k]).0 == bookie.actors@[x].0 && out@[k].1 == v,
        decreases bookie.actors@.len() - i,
    {
        let a = bookie.actors[i].0;
        let entries = &bookie.actors[i].1.entries;
        proof {
            bookie.lemma_versions_at(i as int);
        }
        let ghost start = out@;
        let mut j: usize = 0;
        while j < entries.len()
            invariant
                bookie.wf(),
                i < bookie.actors@.len(),
                a == bookie.actors@[i as int].0,
                entries == &bookie.actors@[i as int].1.entries,
                bookie.versions(a) == bookie.actors@[i as int].1@,
                j <= entries@.len(),
                start.len() <= out@.len(),
                forall|k: int| 0 <= k < start.len() ==> out@[k] == start[k],
                forall|k: int|
                    0 <= k < out@.len() ==> {
                        &&& bookie.versions((#[trigger] out@[k]).0).contains_key(out@[k].1)
                        &&& bookie.versions(out@[k].0)[out@[k].1] == out@[k].2
                        &&& sync.lacks(out@[k].0, out@[k].1)
                    },
                forall|y: int|
                    0 <= y < j && sync.lacks(a, (#[trigger] entries@[y]).0) ==> exists|k: int|
                        0 <= k < out@.len() && (#[trigger] out@[k]).0 == a && out@[k].1 == entries@[y].0,
            decreases entries@.len() - j,
        {
            let (v, state) = entries[j];
            proof {
                crate::bookie::lemma_map_of_at(entries@, j as int);
            }
            if sync.lacks_version(a, v) {
                let ghost before = out@;
                out.push((a, v, state));
                proof {
                    assert forall|y: int|
                        0 <= y < j + 1 && sync.lacks(a, (#[trigger] entries@[y]).0) implies exists|k: int|
                        0 <= k < out@.len() && (#[trigger] out@[k]).0 == a && out@[k].1 == entries@[y].0 by {
                        if y < j {
                            let k = choose|k: int| 0 <= k < before.len() && (#[trigger] before[k]).0 == a && before[k].1 == entries@[y].0;
                            assert(out@[k] == before[k]);
                        } else {
                            assert(out@[before.len() as int].0 == a);
                        }
                    }
                }
            }
            j = j + 1;
        }
        proof {
            assert forall|x: int, v: u64|
                0 <= x < i + 1 && #[trigger] bookie.actors@[x].1@.contains_key(v) && sync.lacks(
                    bookie.actors@[x].0,
                    v,
                ) implies exists|k: int|
                    0 <= k < out@.len() && (#[trigger] out@[k]).0 == bookie.actors@[x].0 && out@[k].1 == v by {
                if x < i {
                    let k = choose|k: int| 0 <= k < start.len() && (#[trigger] start[k]).0 == bookie.actors@[x].0 && start[k].1 == v;
                    assert(out@[k] == start[k]);
                } else {
                    let y = choose|y: int| 0 <= y < entries@.len() && #[trigger] entries@[y].0 == v;
                    assert(sync.lacks(a, entries@[y].0));
                }
            }
        }
        i = i + 1;
    }
    proof {
        assert forall|a: ActorId, v: u64|
            #[trigger] bookie.versions(a).contains_key(v) && sync.lacks(a, v) implies exists|k: int|
                0 <= k < out@.len() && (#[trigger] out@[k]).0 == a && out@[k].1 == v by {
            let x = choose|x: int| 0 <= x < bookie.actors@.len() && (#[trigger] bookie.actors@[x]).0 == a;
            bookie.lemma_versions_at(x);
            assert(bookie.actors@[x].1@.contains_key(v));
        }
    }
    out
}

} // verus!
