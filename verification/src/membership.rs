//! The cluster membership registry: a table from node identifier to
//! liveness status, independent of file storage. Entries are created only
//! by an explicit join, changed only by an explicit re-join, and removed
//! only by an explicit leave; a read never creates one. Callers receive
//! cloned snapshots, never live references into the table.

use vstd::prelude::*;
use vstd::string::*;
use crate::text;

verus! {

/// The liveness status of a peer node.
#[derive(Clone, Copy, Debug, PartialEq, Eq, Structural)]
pub enum NodeStatus {
    Active,
    Inactive,
    Unknown,
}

/// The status named by `s`: the two known names, in either letter case,
/// and `Unknown` for everything else.
pub open spec fn spec_parse_status(s: Seq<char>) -> NodeStatus {
    if s == "Active"@ || s == "active"@ {
        NodeStatus::Active
    } else if s == "Inactive"@ || s == "inactive"@ {
        NodeStatus::Inactive
    } else {
        NodeStatus::Unknown
    }
}

/// Parses a status name.
pub fn parse_status(s: &str) -> (r: NodeStatus)
    ensures
        r == spec_parse_status(s@),
{
    proof {
        reveal_strlit("Active");
        reveal_strlit("active");
        reveal_strlit("Inactive");
        reveal_strlit("inactive");
    }
    if text::str_eq(s, "Active") || text::str_eq(s, "active") {
        NodeStatus::Active
    } else if text::str_eq(s, "Inactive") || text::str_eq(s, "inactive") {
        NodeStatus::Inactive
    } else {
        NodeStatus::Unknown
    }
}

impl NodeStatus {
    /// The canonical name of this status, as a specification value.
    pub open spec fn spec_label(self) -> Seq<char> {
        match self {
            NodeStatus::Active => "Active"@,
            NodeStatus::Inactive => "Inactive"@,
            NodeStatus::Unknown => "Unknown"@,
        }
    }

    /// The canonical name of this status.
    pub fn label(&self) -> (r: String)
        ensures
            r@ == self.spec_label(),
    {
        match self {
            NodeStatus::Active => "Active".to_owned(),
            NodeStatus::Inactive => "Inactive".to_owned(),
            NodeStatus::Unknown => "Unknown".to_owned(),
        }
    }
}

/// One registry entry: identifier, status, and the logical marker of the
/// join that last wrote it. The marker orders diagnostics only; no
/// correctness rests on it.
pub struct NodeEntry {
    pub id: String,
    pub status: NodeStatus,
    pub updated: u64,
}

/// Whether some entry of `s` has identifier `n`.
pub open spec fn entry_in(s: Seq<NodeEntry>, n: Seq<char>) -> bool {
    exists|i: int| 0 <= i < s.len() && (#[trigger] s[i]).id@ == n
}

/// The membership registry. Its view is the map from node identifier to
/// status. All mutation goes through `&mut self`, so callers that share a
/// registry behind one lock observe a total order of joins and leaves.
pub struct MembershipRegistry {
    entries: Vec<NodeEntry>,
    counter: u64,
}

impl View for MembershipRegistry {
    type V = Map<Seq<char>, NodeStatus>;

    closed spec fn view(&self) -> Map<Seq<char>, NodeStatus> {
        Map::new(
            |n: Seq<char>| exists|i: int| 0 <= i < self.entries@.len() && (#[trigger] self.entries@[i]).id@ == n,
            |n: Seq<char>|
                self.entries@[choose|i: int|
                    0 <= i < self.entries@.len() && (#[trigger] self.entries@[i]).id@ == n].status,
        )
    }
}

impl MembershipRegistry {
    /// Every identifier occurs at most once.
    pub closed spec fn wf(self) -> bool {
        forall|i: int, j: int|
            0 <= i < j < self.entries@.len() ==> (#[trigger] self.entries@[i]).id@ != (
            #[trigger] self.entries@[j]).id@
    }

    /// The logical marker the next join will carry.
    pub closed spec fn spec_counter(self) -> u64 {
        self.counter
    }

    /// An empty registry.
    pub fn new() -> (r: MembershipRegistry)
        ensures
            r.wf(),
            r@ == Map::<Seq<char>, NodeStatus>::empty(),
            r.spec_counter() == 0,
    {
        let r = MembershipRegistry { entries: Vec::new(), counter: 0 };
        proof {
            assert(r@ =~= Map::<Seq<char>, NodeStatus>::empty());
        }
        r
    }

    /// Removes the entry for `id`, if any; the no-op case is not an error.
    pub fn leave(&mut self, id: &str) -> (r: bool)
        requires
            old(self).wf(),
        ensures
            final(self).wf(),
            final(self)@ == old(self)@.remove(id@),
            final(self).spec_counter() == old(self).spec_counter(),
            r == old(self)@.contains_key(id@),
    {
        let ghost n = id@;
        let ghost pre = *self;
        let mut i: usize = 0;
        while i < self.entries.len()
            invariant
                i <= self.entries@.len(),
                n == id@,
                *self == pre,
                pre == *old(self),
                pre.wf(),
                forall|j: int| 0 <= j < i ==> (#[trigger] pre.entries@[j]).id@ != n,
            decreases self.entries.len() - i,
        {
            if text::str_eq(self.entries[i].id.as_str(), id) {
                self.entries.remove(i);
                proof {
                    let post = *self;
                    assert(post.entries@ == pre.entries@.remove(i as int));
                    assert(pre@.contains_key(n));
                    let k = choose|k: int|
                        0 <= k < pre.entries@.len() && (#[trigger] pre.entries@[k]).id@ == n;
                    assert(k == i);
                    assert forall|a: int, b: int| 0 <= a < b < post.entries@.len() implies (
                    #[trigger] post.entries@[a]).id@ != (#[trigger] post.entries@[b]).id@ by {
                        let a2: int = if a < i { a } else { a + 1 };
                        let b2: int = if b < i { b } else { b + 1 };
                        assert(post.entries@[a] == pre.entries@[a2]);
                        assert(post.entries@[b] == pre.entries@[b2]);
                    }
                    assert forall|m: Seq<char>| post@.contains_key(m) <==> (pre@.contains_key(m)
                        && m != n) by {
                        if post@.contains_key(m) {
                            let c = choose|c: int|
                                0 <= c < post.entries@.len() && (#[trigger] post.entries@[c]).id@
                                    == m;
                            let c2: int = if c < i { c } else { c + 1 };
                            assert(pre.entries@[c2].id@ == m);
                            assert(c2 != i);
                        } else {
                            if pre@.contains_key(m) && m != n {
                                let c = choose|c: int|
                                    0 <= c < pre.entries@.len() && (
                                    #[trigger] pre.entries@[c]).id@ == m;
                                assert(c != i);
                                let c2: int = if c < i { c } else { c - 1 };
                                assert(post.entries@[c2].id@ == m);
                            }
                        }
                    }
                    assert forall|m: Seq<char>| #[trigger] post@.contains_key(m) implies post@[m]
                        == pre@[m] by {
                        let c = choose|c: int|
                            0 <= c < post.entries@.len() && (#[trigger] post.entries@[c]).id@ == m;
                        let c2: int = if c < i { c } else { c + 1 };
                        assert(pre.entries@[c2].id@ == m);
                        let d = choose|d: int|
                            0 <= d < pre.entries@.len() && (#[trigger] pre.entries@[d]).id@ == m;
                        assert(d == c2);
                        assert(post@[m] == post.entries@[c].status);
                        assert(pre@[m] == pre.entries@[c2].status);
                    }
                    assert(post@ =~= pre@.remove(n));
                }
                return true;
            }
            i = i + 1;
        }
        proof {
            assert(!pre@.contains_key(n));
            assert(pre@ =~= pre@.remove(n));
        }
        false
    }

    /// Joins `id` with `status`: creates the entry or overwrites an
    /// existing one, and bumps the logical marker. Re-joining is the
    /// documented way to update a status.
    pub fn join(&mut self, id: &str, status: NodeStatus)
        requires
            old(self).wf(),
        ensures
            final(self).wf(),
            final(self)@ == old(self)@.insert(id@, status),
            final(self).spec_counter() >= old(self).spec_counter(),
    {
        let ghost n = id@;
        let ghost pre = *self;
        self.leave(id);
        let ghost mid = *self;
        if self.counter < u64::MAX {
            self.counter = self.counter + 1;
        }
        let marker = self.counter;
        self.entries.push(NodeEntry { id: id.to_owned(), status, updated: marker });
        proof {
            let post = *self;
            assert(post.entries@ == mid.entries@.push(post.entries@.last()));
            assert(post.entries@.last().id@ == n);
            assert(post.entries@.last().status == status);
            assert forall|a: int, b: int| 0 <= a < b < post.entries@.len() implies (
            #[trigger] post.entries@[a]).id@ != (#[trigger] post.entries@[b]).id@ by {
                if b == post.entries@.len() - 1 {
                    assert(post.entries@[a] == mid.entries@[a]);
                    assert(!mid@.contains_key(n));
                    assert(mid@.contains_key(mid.entries@[a].id@));
                } else {
                    assert(post.entries@[a] == mid.entries@[a]);
                    assert(post.entries@[b] == mid.entries@[b]);
                }
            }
            assert forall|m: Seq<char>| post@.contains_key(m) <==> (mid@.contains_key(m) || m
                == n) by {
                if post@.contains_key(m) {
                    let k = choose|k: int|
                        0 <= k < post.entries@.len() && (#[trigger] post.entries@[k]).id@ == m;
                    if k < post.entries@.len() - 1 {
                        assert(mid.entries@[k].id@ == m);
                    }
                } else {
                    if mid@.contains_key(m) {
                        let k = choose|k: int|
                            0 <= k < mid.entries@.len() && (#[trigger] mid.entries@[k]).id@ == m;
                        assert(post.entries@[k].id@ == m);
                    }
                    if m == n {
                        assert(post.entries@[post.entries@.len() - 1].id@ == m);
                    }
                }
            }
            assert forall|m: Seq<char>| #[trigger] post@.contains_key(m) implies post@[m] == (
            if m == n {
                status
            } else {
                mid@[m]
            }) by {
                let k = choose|k: int|
                    0 <= k < post.entries@.len() && (#[trigger] post.entries@[k]).id@ == m;
                if m == n {
                    assert(k == post.entries@.len() - 1);
                    assert(post@[m] == post.entries@[k].status);
                } else {
                    assert(k < post.entries@.len() - 1);
                    assert(mid.entries@[k].id@ == m);
                    let k2 = choose|k2: int|
                        0 <= k2 < mid.entries@.len() && (#[trigger] mid.entries@[k2]).id@ == m;
                    assert(k2 == k);
                    assert(post@[m] == post.entries@[k].status);
                    assert(mid@[m] == mid.entries@[k].status);
                }
            }
            assert(post@ =~= mid@.insert(n, status));
            assert(mid@ == pre@.remove(n));
            assert(pre@.remove(n).insert(n, status) =~= pre@.insert(n, status));
        }
    }

    /// The status of `id`, when the registry holds it.
    pub fn status_of(&self, id: &str) -> (r: Option<NodeStatus>)
        requires
            self.wf(),
        ensures
            r is Some <==> self@.contains_key(id@),
            r is Some ==> r->0 == self@[id@],
    {
        let ghost n = id@;
        let mut i: usize = 0;
        while i < self.entries.len()
            invariant
                i <= self.entries@.len(),
                n == id@,
                self.wf(),
                forall|j: int| 0 <= j < i ==> (#[trigger] self.entries@[j]).id@ != n,
            decreases self.entries.len() - i,
        {
            if text::str_eq(self.entries[i].id.as_str(), id) {
                proof {
                    assert(self@.contains_key(n));
                    let k = choose|k: int|
                        0 <= k < self.entries@.len() && (#[trigger] self.entries@[k]).id@ == n;
                    assert(k == i);
                }
                return Some(self.entries[i].status);
            }
            i = i + 1;
        }
        proof {
            assert(!self@.contains_key(n));
        }
        None
    }

    /// A point-in-time copy of the table: entries cloned, never aliased,
    /// so the caller sees no mutation after the call returns.
    pub fn snapshot(&self) -> (r: Vec<NodeEntry>)
        requires
            self.wf(),
        ensures
            forall|n: Seq<char>| self@.contains_key(n) <==> entry_in(r@, n),
            forall|k: int|
                0 <= k < r@.len() ==> self@.contains_key((#[trigger] r@[k]).id@)
                    && self@[r@[k].id@] == r@[k].status,
            forall|i: int, j: int|
                0 <= i < j < r@.len() ==> (#[trigger] r@[i]).id@ != (#[trigger] r@[j]).id@,
    {
        let mut r: Vec<NodeEntry> = Vec::new();
        let mut i: usize = 0;
        while i < self.entries.len()
            invariant
                i <= self.entries@.len(),
                self.wf(),
                r@.len() == i,
                forall|j: int|
                    0 <= j < i ==> (#[trigger] r@[j]).id@ == self.entries@[j].id@ && r@[j].status
                        == self.entries@[j].status,
            decreases self.entries.len() - i,
        {
            let e = &self.entries[i];
            r.push(NodeEntry { id: e.id.clone(), status: e.status, updated: e.updated });
            i = i + 1;
        }
        proof {
            assert forall|n: Seq<char>| self@.contains_key(n) <==> entry_in(r@, n) by {
                if self@.contains_key(n) {
                    let k = choose|k: int|
                        0 <= k < self.entries@.len() && (#[trigger] self.entries@[k]).id@ == n;
                    assert(r@[k].id@ == n);
                }
                if entry_in(r@, n) {
                    let k = choose|k: int| 0 <= k < r@.len() && (#[trigger] r@[k]).id@ == n;
                    assert(self.entries@[k].id@ == n);
                }
            }
            assert forall|k: int| 0 <= k < r@.len() implies self@.contains_key(
                (#[trigger] r@[k]).id@,
            ) && self@[r@[k].id@] == r@[k].status by {
                assert(self.entries@[k].id@ == r@[k].id@);
                let d = choose|d: int|
                    0 <= d < self.entries@.len() && (#[trigger] self.entries@[d]).id@ == r@[k].id@;
                assert(d == k);
            }
        }
        r
    }
}

/// The shared cluster state: a registry addressed by the node-handling
/// operations of the node. The lock that serialises callers lives with
/// the process harness; every mutation here takes exclusive access.
pub struct DistributedFsState {
    registry: MembershipRegistry,
}

impl View for DistributedFsState {
    type V = Map<Seq<char>, NodeStatus>;

    closed spec fn view(&self) -> Map<Seq<char>, NodeStatus> {
        self.registry@
    }
}

impl DistributedFsState {
    /// The registry invariant.
    pub closed spec fn wf(self) -> bool {
        self.registry.wf()
    }

    /// An empty cluster state.
    pub fn new() -> (r: DistributedFsState)
        ensures
            r.wf(),
            r@ == Map::<Seq<char>, NodeStatus>::empty(),
    {
        DistributedFsState { registry: MembershipRegistry::new() }
    }

    /// Adds or updates a cluster node with the status named by `status`.
    pub fn add_cluster_node(&mut self, node_id: &str, status: &str)
        requires
            old(self).wf(),
        ensures
            final(self).wf(),
            final(self)@ == old(self)@.insert(node_id@, spec_parse_status(status@)),
    {
        let s = parse_status(status);
        self.registry.join(node_id, s);
    }

    /// Removes a cluster node; absent identifiers are ignored.
    pub fn remove_cluster_node(&mut self, node_id: &str)
        requires
            old(self).wf(),
        ensures
            final(self).wf(),
            final(self)@ == old(self)@.remove(node_id@),
    {
        self.registry.leave(node_id);
    }

    /// The canonical status name of a node, when the registry holds it.
    pub fn query_node_status(&self, node_id: &str) -> (r: Option<String>)
        requires
            self.wf(),
        ensures
            r is Some <==> self@.contains_key(node_id@),
            r is Some ==> r->0@ == self@[node_id@].spec_label(),
    {
        match self.registry.status_of(node_id) {
            Some(status) => Some(status.label()),
            None => None,
        }
    }
}

} // verus!
