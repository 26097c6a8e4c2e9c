//! Cluster membership: the live peers the failure detector reported, and
//! the bootstrap addresses worth announcing to.
use vstd::prelude::*;
use crate::types::ActorId;

verus! {

/// A peer's gossip address.
#[derive(Clone, Copy, Debug, PartialEq, Eq, Hash, Structural)]
pub enum PeerAddr {
    V4 { ip: u32, port: u16 },
    V6 { ip6: u128, port: u16 },
}

impl PeerAddr {
    pub open spec fn is_v4(self) -> bool {
        self is V4
    }
}

/// A member of the cluster: its identity and where it listens.
#[derive(Clone, Copy, Debug, PartialEq, Eq, Hash, Structural)]
pub struct Actor {
    pub id: ActorId,
    pub addr: PeerAddr,
}

/// The live members, one entry per identity.
pub struct Members {
    pub states: Vec<(ActorId, PeerAddr)>,
}

impl Members {
    pub open spec fn wf(&self) -> bool {
        forall|i: int, j: int|
            0 <= i < j < self.states@.len() ==> (#[trigger] self.states@[i]).0 != (
            #[trigger] self.states@[j]).0
    }

    pub open spec fn has(&self, id: ActorId) -> bool {
        exists|i: int| 0 <= i < self.states@.len() && (#[trigger] self.states@[i]).0 == id
    }

    /// The address of member `id`, if it is a member.
    pub open spec fn addr_of(&self, id: ActorId) -> Option<PeerAddr> {
        if self.has(id) {
            Some(
                self.states@[choose|i: int|
                    0 <= i < self.states@.len() && (#[trigger] self.states@[i]).0 == id].1,
            )
        } else {
            None
        }
    }

    pub proof fn lemma_addr_at(&self, i: int)
        requires
            self.wf(),
            0 <= i < self.states@.len(),
        ensures
            self.addr_of(self.states@[i].0) == Some(self.states@[i].1),
    {
        let a = self.states@[i].0;
        assert(self.has(a));
        let j = choose|j: int| 0 <= j < self.states@.len() && (#[trigger] self.states@[j]).0 == a;
        if j < i {
            assert(self.states@[j].0 != self.states@[i].0);
        } else if j > i {
            assert(self.states@[i].0 != self.states@[j].0);
        }
    }

    /// No member.
    pub fn new() -> (r: Members)
        ensures
            r.wf(),
            forall|id: ActorId| #[trigger] r.addr_of(id) is None,
    {
        Members { states: Vec::new() }
    }

    /// How many members there are.
    pub fn len(&self) -> (r: usize)
        ensures
            r == self.states@.len(),
    {
        self.states.len()
    }

    fn position(&self, id: ActorId) -> (r: Option<usize>)
        ensures
            match r {
                Some(i) => i < self.states@.len() && self.states@[i as int].0 == id,
                None => !self.has(id),
            },
    {
        let mut i: usize = 0;
        while i < self.states.len()
            invariant
                i <= self.states@.len(),
                forall|j: int| 0 <= j < i ==> (#[trigger] self.states@[j]).0 != id,
            decreases self.states@.len() - i,
        {
            if self.states[i].0 == id {
                return Some(i);
            }
            i = i + 1;
        }
        None
    }

    /// Makes `actor` a member at its address; says whether it was not one
    /// before.
    pub fn add_member(&mut self, actor: &Actor) -> (added: bool)
        requires
            old(self).wf(),
        ensures
            final(self).wf(),
            added == (old(self).addr_of(actor.id) is None),
            forall|id: ActorId| #[trigger] final(self).addr_of(id) == if id == actor.id {
                Some(actor.addr)
            } else {
                old(self).addr_of(id)
            },
    {
        let ghost before = *self;
        match self.position(actor.id) {
            Some(i) => {
                self.states.set(i, (actor.id, actor.addr));
                proof {
                    assert forall|x: int, y: int|
                        0 <= x < y < self.states@.len() implies (#[trigger] self.states@[x]).0 != (
                        #[trigger] self.states@[y]).0 by {
                        assert(before.states@[x].0 != before.states@[y].0);
                    }
                    self.lemma_addr_at(i as int);
                    before.lemma_addr_at(i as int);
                    assert forall|id: ActorId| #[trigger] self.addr_of(id) == if id == actor.id {
                        Some(actor.addr)
                    } else {
                        before.addr_of(id)
                    } by {
                        if id != actor.id {
                            if before.has(id) {
                                let k = choose|k: int| 0 <= k < before.states@.len() && (#[trigger] before.states@[k]).0 == id;
                                before.lemma_addr_at(k);
                                self.lemma_addr_at(k);
                            } else if self.has(id) {
                                let k = choose|k: int| 0 <= k < self.states@.len() && (#[trigger] self.states@[k]).0 == id;
                                assert(before.states@[k].0 == id);
                            }
                        }
                    }
                }
                false
            },
            None => {
                self.states.push((actor.id, actor.addr));
                proof {
                    let n = self.states@.len() - 1;
                    assert forall|x: int, y: int|
                        0 <= x < y < self.states@.len() implies (#[trigger] self.states@[x]).0 != (
                        #[trigger] self.states@[y]).0 by {
                        if y == n {
                            assert(self.states@[x] == before.states@[x]);
                        } else {
                            assert(before.states@[x].0 != before.states@[y].0);
                        }
                    }
                    self.lemma_addr_at(n);
                    assert forall|id: ActorId| #[trigger] self.addr_of(id) == if id == actor.id {
                        Some(actor.addr)
                    } else {
                        before.addr_of(id)
                    } by {
                        if id != actor.id {
                            if before.has(id) {
                                let k = choose|k: int| 0 <= k < before.states@.len() && (#[trigger] before.states@[k]).0 == id;
                                before.lemma_addr_at(k);
                                assert(self.states@[k] == before.states@[k]);
                                self.lemma_addr_at(k);
                            } else if self.has(id) {
                                let k = choose|k: int| 0 <= k < self.states@.len() && (#[trigger] self.states@[k]).0 == id;
                                assert(before.states@[k].0 == id);
                            }
                        }
                    }
                }
                true
            },
        }
    }

    /// Removes `actor` from the members; says whether it was one.
    pub fn remove_member(&mut self, actor: &Actor) -> (removed: bool)
        requires
            old(self).wf(),
        ensures
            final(self).wf(),
            removed == (old(self).addr_of(actor.id) is Some),
            forall|id: ActorId| #[trigger] final(self).addr_of(id) == if id == actor.id {
                None
            } else {
                old(self).addr_of(id)
            },
    {
        let ghost before = *self;
        match self.position(actor.id) {
            Some(i) => {
                self.states.remove(i);
                proof {
                    assert forall|x: int| 0 <= x < self.states@.len() implies #[trigger] self.states@[x] == if x < i {
                        before.states@[x]
                    } else {
                        before.states@[x + 1]
                    } by {}
                    assert forall|x: int, y: int|
                        0 <= x < y < self.states@.len() implies (#[trigger] self.states@[x]).0 != (
                        #[trigger] self.states@[y]).0 by {
                        let bx = if x < i { x } else { x + 1 };
                        let by_ = if y < i { y } else { y + 1 };
                        assert(before.states@[bx].0 != before.states@[by_].0);
                    }
                    assert forall|id: ActorId| #[trigger] self.addr_of(id) == if id == actor.id {
                        None
                    } else {
                        before.addr_of(id)
                    } by {
                        if self.has(id) {
                            let k = choose|k: int| 0 <= k < self.states@.len() && (#[trigger] self.states@[k]).0 == id;
                            let bk = if k < i { k } else { k + 1 };
                            assert(before.states@[bk].0 == id);
                            if bk != i {
                                assert(before.states@[bk].0 != before.states@[i as int].0) by {
                                    if bk < i {
                                    } else {
                                    }
                                }
                            }
                            self.lemma_addr_at(k);
                            before.lemma_addr_at(bk);
                        } else if id != actor.id && before.has(id) {
                            let k = choose|k: int| 0 <= k < before.states@.len() && (#[trigger] before.states@[k]).0 == id;
                            assert(k != i);
                            let sk = if k < i { k } else { k - 1 };
                            assert(self.states@[sk].0 == id);
                        }
                    }
                }
                true
            },
            None => {
                proof {
                    assert forall|id: ActorId| #[trigger] self.addr_of(id) == if id == actor.id {
                        None
                    } else {
                        before.addr_of(id)
                    } by {}
                }
                false
            },
        }
    }
}

/// What the failure detector reports.
#[derive(Clone, Copy, Debug, PartialEq, Eq, Structural)]
pub enum Notification {
    MemberUp(Actor),
    MemberDown(Actor),
    Active,
    Idle,
    Defunct,
    Rejoin(Actor),
}

/// A change of membership, for subscribers.
#[derive(Clone, Copy, Debug, PartialEq, Eq, Structural)]
pub enum MemberEvent {
    Up(Actor),
    Down(Actor),
}

/// What to do after a notification.
pub struct NotificationEffect {
    /// The new cluster size to tell the failure detector.
    pub cluster_size: Option<u32>,
    /// The event to publish.
    pub event: Option<MemberEvent>,
}

/// The cluster size to report for `n` members: none for an empty cluster
/// or one too large to count on 32 bits.
pub open spec fn cluster_size_of(n: nat) -> Option<u32> {
    if 0 < n <= u32::MAX {
        Some(n as u32)
    } else {
        None
    }
}

/// Applies a notification to the members. A member that comes up or goes
/// down for the first time changes the cluster size and is published; the
/// other notifications change nothing.
pub fn handle_notification(members: &mut Members, n: &Notification) -> (r: NotificationEffect)
    requires
        old(members).wf(),
    ensures
        final(members).wf(),
        match *n {
            Notification::MemberUp(actor) => {
                &&& forall|id: ActorId| #[trigger] final(members).addr_of(id) == if id == actor.id {
                    Some(actor.addr)
                } else {
                    old(members).addr_of(id)
                }
                &&& if old(members).addr_of(actor.id) is None {
                    r.event == Some(MemberEvent::Up(actor)) && r.cluster_size == cluster_size_of(
                        final(members).states@.len(),
                    )
                } else {
                    r.event is None && r.cluster_size is None
                }
            },
            Notification::MemberDown(actor) => {
                &&& forall|id: ActorId| #[trigger] final(members).addr_of(id) == if id == actor.id {
                    None
                } else {
                    old(members).addr_of(id)
                }
                &&& if old(members).addr_of(actor.id) is Some {
                    r.event == Some(MemberEvent::Down(actor)) && r.cluster_size == cluster_size_of(
                        final(members).states@.len(),
                    )
                } else {
                    r.event is None && r.cluster_size is None
                }
            },
            _ => final(members).states@ == old(members).states@ && r.event is None
                && r.cluster_size is None,
        },
{
    match n {
        Notification::MemberUp(actor) => {
            let added = members.add_member(actor);
            if added {
                NotificationEffect {
                    cluster_size: cluster_size(members.len()),
                    event: Some(MemberEvent::Up(*actor)),
                }
            } else {
                NotificationEffect { cluster_size: None, event: None }
            }
        },
        Notification::MemberDown(actor) => {
            let removed = members.remove_member(actor);
            if removed {
                NotificationEffect {
                    cluster_size: cluster_size(members.len()),
                    event: Some(MemberEvent::Down(*actor)),
                }
            } else {
                NotificationEffect { cluster_size: None, event: None }
            }
        },
        _ => NotificationEffect { cluster_size: None, event: None },
    }
}

fn cluster_size(n: usize) -> (r: Option<u32>)
    ensures
        r == cluster_size_of(n as nat),
{
    if n > 0 && n <= u32::MAX as usize {
        Some(n as u32)
    } else {
        None
    }
}

/// The members other than `self_id`: who a sync may be asked of.
pub fn sync_candidates(members: &Members, self_id: ActorId) -> (r: Vec<(ActorId, PeerAddr)>)
    requires
        members.wf(),
    ensures
        forall|i: int| 0 <= i < r@.len() ==> (#[trigger] r@[i]).0 != self_id && members.addr_of(
            r@[i].0,
        ) == Some(r@[i].1),
        forall|id: ActorId|
            id != self_id && #[trigger] members.addr_of(id) is Some ==> exists|i: int|
                0 <= i < r@.len() && (#[trigger] r@[i]).0 == id,
        forall|i: int, j: int| 0 <= i < j < r@.len() ==> r@[i].0 != r@[j].0,
{
    let mut out: Vec<(ActorId, PeerAddr)> = Vec::new();
    let mut i: usize = 0;
    while i < members.states.len()
        invariant
            members.wf(),
            i <= members.states@.len(),
            forall|k: int| 0 <= k < out@.len() ==> (#[trigger] out@[k]).0 != self_id && members.addr_of(
                out@[k].0,
            ) == Some(out@[k].1),
            forall|j: int|
                0 <= j < i && (#[trigger] members.states@[j]).0 != self_id ==> exists|k: int|
                    0 <= k < out@.len() && (#[trigger] out@[k]).0 == members.states@[j].0,
            forall|k: int|
                0 <= k < out@.len() ==> exists|j: int|
                    0 <= j < i && (#[trigger] members.states@[j]).0 == (#[trigger] out@[k]).0,
            forall|k: int, l: int| 0 <= k < l < out@.len() ==> out@[k].0 != out@[l].0,
        decreases members.states@.len() - i,
    {
        let (id, addr) = members.states[i];
        if id != self_id {
            proof {
                members.lemma_addr_at(i as int);
            }
            let ghost before = out@;
            out.push((id, addr));
            proof {
                assert forall|j: int|
                    0 <= j < i + 1 && (#[trigger] members.states@[j]).0 != self_id implies exists|k: int|
                    0 <= k < out@.len() && (#[trigger] out@[k]).0 == members.states@[j].0 by {
                    if j < i {
                        let k = choose|k: int| 0 <= k < before.len() && (#[trigger] before[k]).0 == members.states@[j].0;
                        assert(out@[k] == before[k]);
                    } else {
                        assert(out@[before.len() as int].0 == members.states@[j].0);
                    }
                }
                assert forall|k: int|
                    0 <= k < out@.len() implies exists|j: int|
                        0 <= j < i + 1 && (#[trigger] members.states@[j]).0 == (#[trigger] out@[k]).0 by {
                    if k < before.len() {
                        let j = choose|j: int| 0 <= j < i && (#[trigger] members.states@[j]).0 == (#[trigger] before[k]).0;
                        assert(out@[k] == before[k]);
                        assert(members.states@[j].0 == out@[k].0);
                    } else {
                        assert(members.states@[i as int].0 == out@[k].0);
                    }
                }
                assert forall|k: int, l: int| 0 <= k < l < out@.len() implies out@[k].0 != out@[l].0 by {
                    if l == before.len() {
                        let j = choose|j: int| 0 <= j < i && (#[trigger] members.states@[j]).0 == (#[trigger] before[k]).0;
                        assert(out@[k] == before[k]);
                        assert(members.states@[j].0 != members.states@[i as int].0);
                    } else {
                        assert(out@[k] == before[k] && out@[l] == before[l]);
                    }
                }
            }
        }
        i = i + 1;
    }
    proof {
        assert forall|id: ActorId|
            id != self_id && #[trigger] members.addr_of(id) is Some implies exists|k: int|
                0 <= k < out@.len() && (#[trigger] out@[k]).0 == id by {
            let j = choose|j: int| 0 <= j < members.states@.len() && (#[trigger] members.states@[j]).0 == id;
            assert(members.states@[j].0 != self_id);
        }
    }
    out
}

/// A resolved bootstrap address is worth announcing to when it is of the
/// same family as ours and is not ours.
pub open spec fn acceptable_peer(ours: PeerAddr, a: PeerAddr) -> bool {
    a.is_v4() == ours.is_v4() && a != ours
}

proof fn lemma_contains_push(s: Seq<PeerAddr>, x: PeerAddr, b: PeerAddr)
    ensures
        s.push(x).contains(b) == (s.contains(b) || x == b),
{
    let t = s.push(x);
    if s.contains(b) {
        let k = choose|k: int| 0 <= k < s.len() && #[trigger] s[k] == b;
        assert(t[k] == b);
    }
    if x == b {
        assert(t[s.len() as int] == b);
    }
    if t.contains(b) {
        let k = choose|k: int| 0 <= k < t.len() && #[trigger] t[k] == b;
        if k < s.len() {
            assert(s[k] == b);
        }
    }
}

/// The acceptable addresses among `addrs`, each once, in the order first
/// seen.
pub fn filter_bootstrap(ours: PeerAddr, addrs: &Vec<PeerAddr>) -> (r: Vec<PeerAddr>)
    ensures
        forall|a: PeerAddr| #[trigger] r@.contains(a) <==> (addrs@.contains(a) && acceptable_peer(ours, a)),
        forall|i: int, j: int| 0 <= i < j < r@.len() ==> r@[i] != r@[j],
{
    let mut out: Vec<PeerAddr> = Vec::new();
    let mut i: usize = 0;
    while i < addrs.len()
        invariant
            i <= addrs@.len(),
            forall|a: PeerAddr| #[trigger] out@.contains(a) <==> (addrs@.subrange(0, i as int).contains(a)
                && acceptable_peer(ours, a)),
            forall|x: int, y: int| 0 <= x < y < out@.len() ==> out@[x] != out@[y],
        decreases addrs@.len() - i,
    {
        let a = addrs[i];
        let same_family = match (a, ours) {
            (PeerAddr::V4 { .. }, PeerAddr::V4 { .. }) => true,
            (PeerAddr::V6 { .. }, PeerAddr::V6 { .. }) => true,
            _ => false,
        };
        let mut seen = false;
        let mut k: usize = 0;
        while k < out.len()
            invariant
                k <= out@.len(),
                seen == out@.subrange(0, k as int).contains(a),
            decreases out@.len() - k,
        {
            if out[k] == a {
                seen = true;
            }
            proof {
                assert(out@.subrange(0, k + 1) =~= out@.subrange(0, k as int).push(out@[k as int]));
                lemma_contains_push(out@.subrange(0, k as int), out@[k as int], a);
            }
            k = k + 1;
        }
        assert(out@.subrange(0, k as int) =~= out@);
        let ghost before = out@;
        if same_family && a != ours && !seen {
            out.push(a);
        }
        proof {
            assert(addrs@.subrange(0, i + 1) =~= addrs@.subrange(0, i as int).push(a));
            assert forall|b: PeerAddr| #[trigger] out@.contains(b) <==> (addrs@.subrange(0, i + 1).contains(b)
                && acceptable_peer(ours, b)) by {
                lemma_contains_push(addrs@.subrange(0, i as int), a, b);
                if out@ != before {
                    lemma_contains_push(before, a, b);
                }
            }
            assert forall|x: int, y: int| 0 <= x < y < out@.len() implies out@[x] != out@[y] by {
                if out@ != before && y == before.len() {
                    assert(before.contains(before[x]));
                }
            }
        }
        i = i + 1;
    }
    assert(addrs@.subrange(0, i as int) =~= addrs@);
    out
}

} // verus!
