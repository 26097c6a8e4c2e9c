//! The Bookie: for each actor, which versions are known locally and what
//! local database snapshot each stands for.
use vstd::prelude::*;
use crate::types::{ActorId, Timestamp};

verus! {

/// What is known locally of one version of an actor.
#[derive(Clone, Copy, Debug, PartialEq, Eq, Structural)]
pub enum KnownVersion {
    /// Applied; its changes end at `db_version` of the local engine.
    Current { db_version: u64, ts: Timestamp },
    /// Only the changes with sequence numbers `start..=end` have arrived.
    Partial { start: u64, end: u64 },
    /// Known, with nothing left to observe.
    Cleared,
}

impl KnownVersion {
    /// A complete state: nothing more to receive for the version.
    pub open spec fn is_complete(self) -> bool {
        !(self is Partial)
    }
}

/// The state booked for a version whose changes end at `db_version`.
pub open spec fn booked_state(db_version: Option<u64>, ts: Timestamp) -> KnownVersion {
    match db_version {
        Some(d) => KnownVersion::Current { db_version: d, ts },
        None => KnownVersion::Cleared,
    }
}

/// The state a version holds after `new` is offered where `cur` stood:
/// a partial version may be completed, and nothing else changes.
pub open spec fn merged(cur: Option<KnownVersion>, new: KnownVersion) -> KnownVersion {
    match cur {
        None => new,
        Some(c) => if !c.is_complete() && new.is_complete() {
            new
        } else {
            c
        },
    }
}

/// The versions of one actor, by increasing version.
pub struct Booked {
    pub entries: Vec<(u64, KnownVersion)>,
}

pub open spec fn sorted(e: Seq<(u64, KnownVersion)>) -> bool {
    forall|i: int, j: int| 0 <= i < j < e.len() ==> #[trigger] e[i].0 < #[trigger] e[j].0
}

pub open spec fn has_key(e: Seq<(u64, KnownVersion)>, v: u64) -> bool {
    exists|i: int| 0 <= i < e.len() && #[trigger] e[i].0 == v
}

/// The map from version to state that sorted entries stand for.
pub open spec fn map_of(e: Seq<(u64, KnownVersion)>) -> Map<u64, KnownVersion> {
    Map::new(
        |v: u64| has_key(e, v),
        |v: u64| e[choose|i: int| 0 <= i < e.len() && #[trigger] e[i].0 == v].1,
    )
}

pub proof fn lemma_map_of_at(e: Seq<(u64, KnownVersion)>, i: int)
    requires
        sorted(e),
        0 <= i < e.len(),
    ensures
        map_of(e).contains_key(e[i].0),
        map_of(e)[e[i].0] == e[i].1,
{
    let v = e[i].0;
    assert(has_key(e, v));
    let j = choose|j: int| 0 <= j < e.len() && #[trigger] e[j].0 == v;
    if j < i {
        assert(e[j].0 < e[i].0);
    } else if j > i {
        assert(e[i].0 < e[j].0);
    }
}

/// The state of `v` in `m`, if any.
pub open spec fn state_in(m: Map<u64, KnownVersion>, v: u64) -> Option<KnownVersion> {
    if m.contains_key(v) {
        Some(m[v])
    } else {
        None
    }
}

proof fn lemma_map_of_update(e: Seq<(u64, KnownVersion)>, i: int, s: KnownVersion)
    requires
        sorted(e),
        0 <= i < e.len(),
    ensures
        sorted(e.update(i, (e[i].0, s))),
        map_of(e.update(i, (e[i].0, s))) == map_of(e).insert(e[i].0, s),
{
    let k = e[i].0;
    let n = e.update(i, (k, s));
    assert(sorted(n)) by {
        assert forall|a: int, b: int| 0 <= a < b < n.len() implies #[trigger] n[a].0 < #[trigger] n[b].0 by {
            assert(e[a].0 < e[b].0);
        }
    }
    assert forall|v: u64| #[trigger] has_key(n, v) == (has_key(e, v) || v == k) by {
        if has_key(e, v) {
            let j = choose|j: int| 0 <= j < e.len() && #[trigger] e[j].0 == v;
            assert(n[j].0 == v);
        }
        if has_key(n, v) {
            let j = choose|j: int| 0 <= j < n.len() && #[trigger] n[j].0 == v;
            assert(e[j].0 == v);
        }
        if v == k {
            assert(n[i].0 == v);
        }
    }
    assert forall|v: u64| #[trigger] map_of(n).contains_key(v) implies map_of(n)[v] == map_of(
        e,
    ).insert(k, s)[v] by {
        let j = choose|j: int| 0 <= j < n.len() && #[trigger] n[j].0 == v;
        lemma_map_of_at(n, j);
        if j != i {
            lemma_map_of_at(e, j);
        }
    }
    assert(map_of(n) =~= map_of(e).insert(k, s));
}

proof fn lemma_map_of_insert(e: Seq<(u64, KnownVersion)>, i: int, k: u64, s: KnownVersion)
    requires
        sorted(e),
        0 <= i <= e.len(),
        forall|j: int| 0 <= j < i ==> #[trigger] e[j].0 < k,
        forall|j: int| i <= j < e.len() ==> #[trigger] e[j].0 > k,
    ensures
        sorted(e.insert(i, (k, s))),
        map_of(e.insert(i, (k, s))) == map_of(e).insert(k, s),
{
    let n = e.insert(i, (k, s));
    assert(sorted(n)) by {
        assert forall|a: int, b: int| 0 <= a < b < n.len() implies #[trigger] n[a].0 < #[trigger] n[b].0 by {
            if b < i {
                assert(e[a].0 < e[b].0);
            } else if b == i {
                assert(e[a].0 < k);
            } else if a < i {
                assert(e[a].0 < e[b - 1].0);
            } else if a == i {
                assert(e[b - 1].0 > k);
            } else {
                assert(e[a - 1].0 < e[b - 1].0);
            }
        }
    }
    assert forall|v: u64| #[trigger] has_key(n, v) == (has_key(e, v) || v == k) by {
        if has_key(e, v) {
            let j = choose|j: int| 0 <= j < e.len() && #[trigger] e[j].0 == v;
            if j < i {
                assert(n[j].0 == v);
            } else {
                assert(n[j + 1].0 == v);
            }
        }
        if has_key(n, v) {
            let j = choose|j: int| 0 <= j < n.len() && #[trigger] n[j].0 == v;
            if j < i {
                assert(e[j].0 == v);
            } else if j > i {
                assert(e[j - 1].0 == v);
            }
        }
        if v == k {
            assert(n[i].0 == v);
        }
    }
    assert forall|v: u64| #[trigger] map_of(n).contains_key(v) implies map_of(n)[v] == map_of(
        e,
    ).insert(k, s)[v] by {
        let j = choose|j: int| 0 <= j < n.len() && #[trigger] n[j].0 == v;
        lemma_map_of_at(n, j);
        if j < i {
            lemma_map_of_at(e, j);
        } else if j > i {
            lemma_map_of_at(e, j - 1);
        }
    }
    assert(map_of(n) =~= map_of(e).insert(k, s));
}

/// Version `v` lies in one of the inclusive ranges `rs`.
pub open spec fn covered(rs: Seq<(u64, u64)>, v: int) -> bool {
    exists|i: int| 0 <= i < rs.len() && (#[trigger] rs[i]).0 <= v <= rs[i].1
}

/// Inclusive ranges within `[1, head]`, in increasing order, neither
/// overlapping nor touching.
pub open spec fn ranges_ok(rs: Seq<(u64, u64)>, head: u64) -> bool {
    &&& forall|i: int| 0 <= i < rs.len() ==> 1 <= (#[trigger] rs[i]).0 <= rs[i].1 <= head
    &&& forall|i: int, j: int| 0 <= i < j < rs.len() ==> (#[trigger] rs[i]).1 + 1 < (#[trigger] rs[j]).0
}

/// `rs` are the gaps of `m` within `[1, head]`: the versions up to `head`
/// that are not known, as ranges.
pub open spec fn is_need(rs: Seq<(u64, u64)>, m: Map<u64, KnownVersion>, head: u64) -> bool {
    &&& ranges_ok(rs, head)
    &&& forall|v: u64| 1 <= v <= head ==> (covered(rs, v as int) <==> !m.contains_key(v))
}

/// Some entry before index `i` has key `v`.
pub open spec fn key_before(e: Seq<(u64, KnownVersion)>, i: int, v: int) -> bool {
    exists|j: int| 0 <= j < i && #[trigger] e[j].0 == v
}

proof fn lemma_key_before_step(e: Seq<(u64, KnownVersion)>, i: int, v: int)
    requires
        0 <= i < e.len(),
    ensures
        key_before(e, i + 1, v) == (key_before(e, i, v) || e[i].0 == v),
{
    if key_before(e, i + 1, v) {
        let j = choose|j: int| 0 <= j < i + 1 && #[trigger] e[j].0 == v;
        if j < i {
            assert(key_before(e, i, v));
        }
    }
    if key_before(e, i, v) {
        let j = choose|j: int| 0 <= j < i && #[trigger] e[j].0 == v;
        assert(0 <= j < i + 1 && e[j].0 == v);
    }
    if e[i].0 == v {
        assert(0 <= i < i + 1 && e[i].0 == v);
    }
}

proof fn lemma_covered_push(rs: Seq<(u64, u64)>, r: (u64, u64), v: int)
    ensures
        covered(rs.push(r), v) == (covered(rs, v) || (r.0 <= v <= r.1)),
{
    let n = rs.push(r);
    if covered(rs, v) {
        let i = choose|i: int| 0 <= i < rs.len() && (#[trigger] rs[i]).0 <= v <= rs[i].1;
        assert(n[i] == rs[i]);
    }
    if r.0 <= v <= r.1 {
        assert(n[rs.len() as int] == r);
    }
    if covered(n, v) {
        let i = choose|i: int| 0 <= i < n.len() && (#[trigger] n[i]).0 <= v <= n[i].1;
        if i < rs.len() {
            assert(n[i] == rs[i]);
        }
    }
}

impl View for Booked {
    type V = Map<u64, KnownVersion>;

    open spec fn view(&self) -> Map<u64, KnownVersion> {
        map_of(self.entries@)
    }
}

/// The highest key of a map of versions, if any.
#[verifier::opaque]
pub open spec fn last_of(m: Map<u64, KnownVersion>) -> Option<u64> {
    if m.dom().is_empty() {
        None
    } else {
        Some(choose|v: u64| m.contains_key(v) && forall|w: u64| m.contains_key(w) ==> w <= v)
    }
}

pub proof fn lemma_last_of(m: Map<u64, KnownVersion>, v: u64)
    requires
        m.contains_key(v),
        forall|w: u64| m.contains_key(w) ==> w <= v,
    ensures
        last_of(m) == Some(v),
{
    reveal(last_of);
    assert(m.dom().contains(v));
    let c = choose|c: u64| m.contains_key(c) && forall|w: u64| m.contains_key(w) ==> w <= c;
    assert(m.contains_key(c) && forall|w: u64| m.contains_key(w) ==> w <= c);
    assert(c <= v && v <= c);
}

pub proof fn lemma_last_of_empty(m: Map<u64, KnownVersion>)
    requires
        m.dom().is_empty(),
    ensures
        last_of(m) is None,
{
    reveal(last_of);
}

proof fn lemma_entries_last(e: Seq<(u64, KnownVersion)>)
    requires
        sorted(e),
    ensures
        match last_of(map_of(e)) {
            Some(l) => map_of(e).contains_key(l) && forall|w: u64| map_of(e).contains_key(w) ==> w <= l,
            None => map_of(e).dom().is_empty(),
        },
{
    if e.len() == 0 {
        assert(map_of(e).dom() =~= Set::<u64>::empty());
        lemma_last_of_empty(map_of(e));
    } else {
        let n = e.len() - 1;
        lemma_map_of_at(e, n);
        assert forall|w: u64| map_of(e).contains_key(w) implies w <= e[n].0 by {
            let j = choose|j: int| 0 <= j < e.len() && #[trigger] e[j].0 == w;
            if j < n {
                assert(e[j].0 < e[n].0);
            }
        }
        lemma_last_of(map_of(e), e[n].0);
    }
}

impl Booked {
    pub open spec fn wf(&self) -> bool {
        sorted(self.entries@)
    }

    /// No version known.
    pub fn new() -> (r: Booked)
        ensures
            r.wf(),
            r@ == Map::<u64, KnownVersion>::empty(),
    {
        let r = Booked { entries: Vec::new() };
        assert(r@ =~= Map::<u64, KnownVersion>::empty());
        r
    }

    /// Is `version` known?
    pub fn contains(&self, version: u64) -> (r: bool)
        requires
            self.wf(),
        ensures
            r == self@.contains_key(version),
    {
        let mut i: usize = 0;
        while i < self.entries.len()
            invariant
                i <= self.entries@.len(),
                forall|j: int| 0 <= j < i ==> #[trigger] self.entries@[j].0 != version,
            decreases self.entries@.len() - i,
        {
            if self.entries[i].0 == version {
                return true;
            }
            i = i + 1;
        }
        false
    }

    /// The highest known version.
    pub fn last(&self) -> (r: Option<u64>)
        requires
            self.wf(),
        ensures
            r == last_of(self@),
            match r {
                Some(v) => self@.contains_key(v) && forall|w: u64| self@.contains_key(w) ==> w <= v,
                None => self@.dom().is_empty(),
            },
    {
        let n = self.entries.len();
        if n == 0 {
            assert(self@.dom() =~= Set::<u64>::empty());
            proof {
                lemma_last_of_empty(self@);
            }
            None
        } else {
            let v = self.entries[n - 1].0;
            proof {
                let e = self.entries@;
                lemma_map_of_at(e, n - 1);
                assert forall|w: u64| self@.contains_key(w) implies w <= v by {
                    let j = choose|j: int| 0 <= j < e.len() && #[trigger] e[j].0 == w;
                    if j < n - 1 {
                        assert(e[j].0 < e[n - 1].0);
                    }
                }
                lemma_last_of(self@, v);
            }
            Some(v)
        }
    }

    /// The state of `version`, if known.
    pub fn get(&self, version: u64) -> (r: Option<KnownVersion>)
        requires
            self.wf(),
        ensures
            r == (if self@.contains_key(version) { Some(self@[version]) } else { None }),
    {
        let mut i: usize = 0;
        while i < self.entries.len()
            invariant
                i <= self.entries@.len(),
                sorted(self.entries@),
                forall|j: int| 0 <= j < i ==> #[trigger] self.entries@[j].0 != version,
            decreases self.entries@.len() - i,
        {
            if self.entries[i].0 == version {
                proof {
                    lemma_map_of_at(self.entries@, i as int);
                }
                return Some(self.entries[i].1);
            }
            i = i + 1;
        }
        None
    }
    /// Records `state` for `version`: a new version is added, a partial one
    /// may be completed, and a known complete one is never changed.
    pub fn insert(&mut self, version: u64, state: KnownVersion)
        requires
            old(self).wf(),
        ensures
            final(self).wf(),
            final(self)@ == old(self)@.insert(version, merged(state_in(old(self)@, version), state)),
    {
        let n = self.entries.len();
        let mut i: usize = 0;
        while i < n && self.entries[i].0 < version
            invariant
                i <= n == self.entries@.len(),
                sorted(self.entries@),
                forall|j: int| 0 <= j < i ==> #[trigger] self.entries@[j].0 < version,
            decreases n - i,
        {
            i = i + 1;
        }
        if i < n && self.entries[i].0 == version {
            let cur = self.entries[i].1;
            let complete_cur = match cur {
                KnownVersion::Partial { .. } => false,
                _ => true,
            };
            let complete_new = match state {
                KnownVersion::Partial { .. } => false,
                _ => true,
            };
            let next = if !complete_cur && complete_new {
                state
            } else {
                cur
            };
            proof {
                lemma_map_of_at(self.entries@, i as int);
                lemma_map_of_update(self.entries@, i as int, next);
            }
            self.entries.set(i, (version, next));
        } else {
            proof {
                assert forall|j: int| i <= j < self.entries@.len() implies #[trigger] self.entries@[j].0 > version by {
                    assert(self.entries@[i as int].0 > version);
                    if j > i {
                        assert(self.entries@[i as int].0 < self.entries@[j].0);
                    }
                }
                assert(!self@.contains_key(version)) by {
                    if has_key(self.entries@, version) {
                        let j = choose|j: int| 0 <= j < self.entries@.len() && #[trigger] self.entries@[j].0 == version;
                        if j < i {
                        } else {
                        }
                    }
                }
                lemma_map_of_insert(self.entries@, i as int, version, state);
            }
            self.entries.insert(i, (version, state));
        }
    }
    /// The versions in `[1, head]` that are not known, as ranges.
    pub fn need(&self, head: u64) -> (r: Vec<(u64, u64)>)
        requires
            self.wf(),
        ensures
            is_need(r@, self@, head),
    {
        let e = &self.entries;
        let n = e.len();
        let mut out: Vec<(u64, u64)> = Vec::new();
        let mut next: u128 = 1;
        let mut i: usize = 0;
        while i < n
            invariant
                n == e@.len(),
                i <= n,
                sorted(e@),
                1 <= next <= head + 1,
                i == 0 ==> next == 1,
                forall|j: int| 0 <= j < i ==> #[trigger] e@[j].0 < next,
                i > 0 ==> next <= e@[i - 1].0 + 1,
                forall|v: int| 1 <= v < next ==> (covered(out@, v) <==> !key_before(e@, i as int, v)),
                forall|v: int| v >= next ==> !covered(out@, v),
                forall|a: int| 0 <= a < out@.len() ==> 1 <= (#[trigger] out@[a]).0 <= out@[a].1
                    && out@[a].1 + 1 < next,
                forall|a: int, b: int|
                    0 <= a < b < out@.len() ==> (#[trigger] out@[a]).1 + 1 < (#[trigger] out@[b]).0,
            ensures
                i < n ==> e@[i as int].0 > head,
            decreases n - i,
        {
            let k = e[i].0 as u128;
            if k > head as u128 {
                break;
            }
            let ghost old_next = next;
            let ghost old_out = out@;
            proof {
                if i > 0 {
                    assert(e@[i - 1].0 < e@[i as int].0);
                }
            }
            if k >= next {
                if k > next {
                    let r = (next as u64, (k - 1) as u64);
                    out.push(r);
                    proof {
                        assert forall|v: int| #[trigger] covered(out@, v) == (covered(old_out, v) || (r.0 <= v <= r.1)) by {
                            lemma_covered_push(old_out, r, v);
                        }
                    }
                }
                next = k + 1;
            }
            proof {
                assert forall|v: int| 1 <= v < next implies (covered(out@, v) <==> !key_before(e@, i + 1, v)) by {
                    lemma_key_before_step(e@, i as int, v);
                    if v < old_next {
                        assert(covered(out@, v) == covered(old_out, v));
                        assert(covered(old_out, v) == !key_before(e@, i as int, v));
                    } else {
                        assert(!covered(old_out, v));
                        assert(!key_before(e@, i as int, v)) by {
                            if key_before(e@, i as int, v) {
                                let j = choose|j: int| 0 <= j < i && #[trigger] e@[j].0 == v;
                                assert(e@[j].0 < old_next);
                            }
                        }
                    }
                }
            }
            i = i + 1;
        }
        proof {
            assert forall|j: int| i <= j < n implies #[trigger] e@[j].0 > head by {
                if j > i {
                    assert(e@[i as int].0 < e@[j].0);
                }
            }
        }
        if next <= head as u128 {
            let r = (next as u64, head);
            let ghost before = out@;
            out.push(r);
            proof {
                assert forall|v: int| #[trigger] covered(out@, v) == (covered(before, v) || (r.0 <= v <= r.1)) by {
                    lemma_covered_push(before, r, v);
                }
            }
        }
        proof {
            assert forall|v: u64| 1 <= v <= head implies (covered(out@, v as int) <==> !self@.contains_key(v)) by {
                if has_key(e@, v) {
                    let j = choose|j: int| 0 <= j < e@.len() && #[trigger] e@[j].0 == v;
                    assert(j < i);
                    assert(key_before(e@, i as int, v as int));
                }
                if key_before(e@, i as int, v as int) {
                    let j = choose|j: int| 0 <= j < i && #[trigger] e@[j].0 == v;
                    assert(has_key(e@, v));
                }
            }
        }
        out
    }
}

/// The versions known of every actor seen so far, one entry per actor.
pub struct Bookie {
    pub actors: Vec<(ActorId, Booked)>,
}

impl Bookie {
    pub open spec fn wf(&self) -> bool {
        &&& forall|i: int, j: int|
            0 <= i < j < self.actors@.len() ==> (#[trigger] self.actors@[i]).0 != (
            #[trigger] self.actors@[j]).0
        &&& forall|i: int| 0 <= i < self.actors@.len() ==> (#[trigger] self.actors@[i]).1.wf()
    }

    pub open spec fn has_actor(&self, a: ActorId) -> bool {
        exists|i: int| 0 <= i < self.actors@.len() && (#[trigger] self.actors@[i]).0 == a
    }

    /// The versions known of actor `a` (none for an actor never seen).
    pub open spec fn versions(&self, a: ActorId) -> Map<u64, KnownVersion> {
        if self.has_actor(a) {
            self.actors@[choose|i: int| 0 <= i < self.actors@.len() && (#[trigger] self.actors@[i]).0 == a].1@
        } else {
            Map::empty()
        }
    }

    pub proof fn lemma_versions_at(&self, i: int)
        requires
            self.wf(),
            0 <= i < self.actors@.len(),
        ensures
            self.versions(self.actors@[i].0) == self.actors@[i].1@,
    {
        let a = self.actors@[i].0;
        assert(self.has_actor(a));
        let j = choose|j: int| 0 <= j < self.actors@.len() && (#[trigger] self.actors@[j]).0 == a;
        if j != i {
            if j < i {
                assert(self.actors@[j].0 != self.actors@[i].0);
            } else {
                assert(self.actors@[i].0 != self.actors@[j].0);
            }
        }
    }

    /// The highest known version of an actor is known, and no known
    /// version is higher.
    pub proof fn lemma_last_is_max(&self, a: ActorId)
        requires
            self.wf(),
        ensures
            match last_of(self.versions(a)) {
                Some(l) => self.versions(a).contains_key(l) && forall|w: u64|
                    self.versions(a).contains_key(w) ==> w <= l,
                None => self.versions(a).dom().is_empty(),
            },
    {
        if self.has_actor(a) {
            let k = choose|k: int| 0 <= k < self.actors@.len() && (#[trigger] self.actors@[k]).0 == a;
            self.lemma_versions_at(k);
            lemma_entries_last(self.actors@[k].1.entries@);
        } else {
            assert(self.versions(a).dom() =~= Set::<u64>::empty());
            lemma_last_of_empty(self.versions(a));
        }
    }

    /// Nothing known of anyone.
    pub fn new() -> (r: Bookie)
        ensures
            r.wf(),
            forall|a: ActorId| #[trigger] r.versions(a) == Map::<u64, KnownVersion>::empty(),
    {
        Bookie { actors: Vec::new() }
    }

    fn position(&self, a: ActorId) -> (r: Option<usize>)
        requires
            self.wf(),
        ensures
            match r {
                Some(i) => i < self.actors@.len() && self.actors@[i as int].0 == a,
                None => !self.has_actor(a),
            },
    {
        let mut i: usize = 0;
        while i < self.actors.len()
            invariant
                i <= self.actors@.len(),
                forall|j: int| 0 <= j < i ==> (#[trigger] self.actors@[j]).0 != a,
            decreases self.actors@.len() - i,
        {
            if self.actors[i].0 == a {
                return Some(i);
            }
            i = i + 1;
        }
        None
    }

    /// Is version `version` of `actor` known?
    pub fn contains(&self, actor: ActorId, version: u64) -> (r: bool)
        requires
            self.wf(),
        ensures
            r == self.versions(actor).contains_key(version),
    {
        match self.position(actor) {
            None => false,
            Some(i) => {
                proof {
                    self.lemma_versions_at(i as int);
                }
                self.actors[i].1.contains(version)
            },
        }
    }

    /// The highest known version of `actor`.
    pub fn last(&self, actor: ActorId) -> (r: Option<u64>)
        requires
            self.wf(),
        ensures
            r == last_of(self.versions(actor)),
    {
        match self.position(actor) {
            None => {
                assert(self.versions(actor).dom() =~= Set::<u64>::empty());
                proof {
                    lemma_last_of_empty(self.versions(actor));
                }
                None
            },
            Some(i) => {
                proof {
                    self.lemma_versions_at(i as int);
                }
                self.actors[i].1.last()
            },
        }
    }

    /// Records `state` for `version` of `actor`, as `Booked::insert` does;
    /// the other actors are untouched.
    pub fn add(&mut self, actor: ActorId, version: u64, state: KnownVersion)
        requires
            old(self).wf(),
        ensures
            final(self).wf(),
            forall|a: ActorId| #[trigger] final(self).versions(a) == if a == actor {
                old(self).versions(actor).insert(
                    version,
                    merged(state_in(old(self).versions(actor), version), state),
                )
            } else {
                old(self).versions(a)
            },
    {
        match self.position(actor) {
            None => {
                let mut b = Booked::new();
                b.insert(version, state);
                let ghost before = *self;
                self.actors.push((actor, b));
                proof {
                    let n = self.actors@.len() - 1;
                    assert forall|i: int, j: int|
                        0 <= i < j < self.actors@.len() implies (#[trigger] self.actors@[i]).0 != (
                        #[trigger] self.actors@[j]).0 by {
                        if j == n {
                            assert(self.actors@[i] == before.actors@[i]);
                        }
                    }
                    self.lemma_versions_at(n);
                    assert(b@ =~= Map::<u64, KnownVersion>::empty().insert(version, state));
                    assert forall|a: ActorId| #[trigger] self.versions(a) == if a == actor {
                        before.versions(actor).insert(
                            version,
                            merged(state_in(before.versions(actor), version), state),
                        )
                    } else {
                        before.versions(a)
                    } by {
                        if a != actor {
                            if before.has_actor(a) {
                                let k = choose|k: int| 0 <= k < before.actors@.len() && (#[trigger] before.actors@[k]).0 == a;
                                before.lemma_versions_at(k);
                                self.lemma_versions_at(k);
                            } else {
                                if self.has_actor(a) {
                                    let k = choose|k: int| 0 <= k < self.actors@.len() && (#[trigger] self.actors@[k]).0 == a;
                                    assert(before.actors@[k].0 == a);
                                }
                            }
                        }
                    }
                }
            },
            Some(i) => {
                let ghost before = *self;
                let (a, mut b) = self.actors.remove(i);
                proof {
                    before.lemma_versions_at(i as int);
                }
                b.insert(version, state);
                self.actors.insert(i, (a, b));
                proof {
                    assert forall|x: int| 0 <= x < self.actors@.len() && x != i implies #[trigger] self.actors@[x] == before.actors@[x] by {}
                    assert forall|x: int, y: int|
                        0 <= x < y < self.actors@.len() implies (#[trigger] self.actors@[x]).0 != (
                        #[trigger] self.actors@[y]).0 by {
                        assert(before.actors@[x].0 != before.actors@[y].0);
                    }
                    self.lemma_versions_at(i as int);
                    assert forall|a2: ActorId| #[trigger] self.versions(a2) == if a2 == actor {
                        before.versions(actor).insert(
                            version,
                            merged(state_in(before.versions(actor), version), state),
                        )
                    } else {
                        before.versions(a2)
                    } by {
                        if a2 != actor {
                            if before.has_actor(a2) {
                                let k = choose|k: int| 0 <= k < before.actors@.len() && (#[trigger] before.actors@[k]).0 == a2;
                                before.lemma_versions_at(k);
                                self.lemma_versions_at(k);
                            } else {
                                if self.has_actor(a2) {
                                    let k = choose|k: int| 0 <= k < self.actors@.len() && (#[trigger] self.actors@[k]).0 == a2;
                                    assert(before.actors@[k].0 == a2);
                                }
                            }
                        }
                    }
                }
            },
        }
    }
}

impl Bookie {
    /// The Bookie that bookkeeping rows `(actor, version, db_version, ts)`
    /// describe: every row's version is known, and nothing else; a version
    /// holds the state of its first row.
    pub fn from_rows(rows: &Vec<(ActorId, u64, Option<u64>, Timestamp)>) -> (r: Bookie)
        ensures
            r.wf(),
            forall|a: ActorId, v: u64|
                #[trigger] r.versions(a).contains_key(v) <==> exists|i: int|
                    0 <= i < rows@.len() && (#[trigger] rows@[i]).0 == a && rows@[i].1 == v,
            forall|a: ActorId, v: u64|
                #[trigger] r.versions(a).contains_key(v) ==> exists|i: int|
                    0 <= i < rows@.len() && (#[trigger] rows@[i]).0 == a && rows@[i].1 == v
                        && r.versions(a)[v] == booked_state(rows@[i].2, rows@[i].3),
    {
        let mut b = Bookie::new();
        let mut k: usize = 0;
        while k < rows.len()
            invariant
                k <= rows@.len(),
                b.wf(),
                forall|a: ActorId, v: u64|
                    #[trigger] b.versions(a).contains_key(v) <==> exists|i: int|
                        0 <= i < k && (#[trigger] rows@[i]).0 == a && rows@[i].1 == v,
                forall|a: ActorId, v: u64|
                    #[trigger] b.versions(a).contains_key(v) ==> exists|i: int|
                        0 <= i < k && (#[trigger] rows@[i]).0 == a && rows@[i].1 == v
                            && b.versions(a)[v] == booked_state(rows@[i].2, rows@[i].3),
            decreases rows@.len() - k,
        {
            let (a, v, d, ts) = rows[k];
            let state = match d {
                Some(x) => KnownVersion::Current { db_version: x, ts },
                None => KnownVersion::Cleared,
            };
            let ghost before = b;
            b.add(a, v, state);
            proof {
                assert forall|a2: ActorId, v2: u64|
                    #[trigger] b.versions(a2).contains_key(v2) <==> exists|i: int|
                        0 <= i < k + 1 && (#[trigger] rows@[i]).0 == a2 && rows@[i].1 == v2 by {
                    if a2 == a && v2 == v {
                        assert(rows@[k as int].0 == a2 && rows@[k as int].1 == v2);
                    } else {
                        assert(b.versions(a2).contains_key(v2) == before.versions(a2).contains_key(v2));
                        if exists|i: int| 0 <= i < k + 1 && (#[trigger] rows@[i]).0 == a2 && rows@[i].1 == v2 {
                            let i = choose|i: int| 0 <= i < k + 1 && (#[trigger] rows@[i]).0 == a2 && rows@[i].1 == v2;
                            assert(i < k);
                        }
                    }
                }
                assert forall|a2: ActorId, v2: u64|
                    #[trigger] b.versions(a2).contains_key(v2) implies exists|i: int|
                        0 <= i < k + 1 && (#[trigger] rows@[i]).0 == a2 && rows@[i].1 == v2
                            && b.versions(a2)[v2] == booked_state(rows@[i].2, rows@[i].3) by {
                    if a2 == a && v2 == v {
                        if before.versions(a).contains_key(v) {
                            let i = choose|i: int|
                                0 <= i < k && (#[trigger] rows@[i]).0 == a && rows@[i].1 == v
                                    && before.versions(a)[v] == booked_state(rows@[i].2, rows@[i].3);
                            assert(b.versions(a)[v] == before.versions(a)[v]);
                        } else {
                            assert(b.versions(a)[v] == state);
                            assert(rows@[k as int].0 == a2 && rows@[k as int].1 == v2);
                        }
                    } else {
                        assert(b.versions(a2) == if a2 == a {
                            before.versions(a).insert(v, merged(state_in(before.versions(a), v), state))
                        } else {
                            before.versions(a2)
                        });
                        let i = choose|i: int|
                            0 <= i < k && (#[trigger] rows@[i]).0 == a2 && rows@[i].1 == v2
                                && before.versions(a2)[v2] == booked_state(rows@[i].2, rows@[i].3);
                        assert(b.versions(a2)[v2] == before.versions(a2)[v2]);
                    }
                }
            }
            k = k + 1;
        }
        b
    }
}

} // verus!
