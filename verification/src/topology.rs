//! The peer topology: a table from peer identifier to transport address.
//! It backs the connection bootstrap above the core and is independent of
//! both the storage index and the membership registry.

use vstd::prelude::*;
use vstd::string::*;
use crate::text;

verus! {

/// The known peers, addressed by identifier. The view is the map from
/// peer identifier to address characters.
pub struct NetworkTopology {
    peers: Vec<(String, String)>,
}

impl View for NetworkTopology {
    type V = Map<Seq<char>, Seq<char>>;

    closed spec fn view(&self) -> Map<Seq<char>, Seq<char>> {
        Map::new(
            |n: Seq<char>| exists|i: int| 0 <= i < self.peers@.len() && (#[trigger] self.peers@[i]).0@ == n,
            |n: Seq<char>|
                self.peers@[choose|i: int|
                    0 <= i < self.peers@.len() && (#[trigger] self.peers@[i]).0@ == n].1@,
        )
    }
}

impl NetworkTopology {
    /// Every peer identifier occurs at most once.
    pub closed spec fn wf(self) -> bool {
        forall|i: int, j: int|
            0 <= i < j < self.peers@.len() ==> (#[trigger] self.peers@[i]).0@ != (
            #[trigger] self.peers@[j]).0@
    }

    /// An empty topology.
    pub fn new() -> (r: NetworkTopology)
        ensures
            r.wf(),
            r@ == Map::<Seq<char>, Seq<char>>::empty(),
    {
        let r = NetworkTopology { peers: Vec::new() };
        proof {
            assert(r@ =~= Map::<Seq<char>, Seq<char>>::empty());
        }
        r
    }

    /// Removes a peer; absent identifiers are ignored.
    pub fn remove_peer(&mut self, id: &String)
        requires
            old(self).wf(),
        ensures
            final(self).wf(),
            final(self)@ == old(self)@.remove(id@),
    {
        let ghost n = id@;
        let ghost pre = *self;
        let mut i: usize = 0;
        while i < self.peers.len()
            invariant
                i <= self.peers@.len(),
                n == id@,
                *self == pre,
                pre == *old(self),
                pre.wf(),
                forall|j: int| 0 <= j < i ==> (#[trigger] pre.peers@[j]).0@ != n,
            decreases self.peers.len() - i,
        {
            if text::str_eq(self.peers[i].0.as_str(), id.as_str()) {
                self.peers.remove(i);
                proof {
                    let post = *self;
                    assert(post.peers@ == pre.peers@.remove(i as int));
                    assert(pre@.contains_key(n));
                    let k = choose|k: int|
                        0 <= k < pre.peers@.len() && (#[trigger] pre.peers@[k]).0@ == n;
                    assert(k == i);
                    assert forall|a: int, b: int| 0 <= a < b < post.peers@.len() implies (
                    #[trigger] post.peers@[a]).0@ != (#[trigger] post.peers@[b]).0@ by {
                        let a2: int = if a < i { a } else { a + 1 };
                        let b2: int = if b < i { b } else { b + 1 };
                        assert(post.peers@[a] == pre.peers@[a2]);
                        assert(post.peers@[b] == pre.peers@[b2]);
                    }
                    assert forall|m: Seq<char>| post@.contains_key(m) <==> (pre@.contains_key(m)
                        && m != n) by {
                        if post@.contains_key(m) {
                            let c = choose|c: int|
                                0 <= c < post.peers@.len() && (#[trigger] post.peers@[c]).0@ == m;
                            let c2: int = if c < i { c } else { c + 1 };
                            assert(pre.peers@[c2].0@ == m);
                            assert(c2 != i);
                        } else {
                            if pre@.contains_key(m) && m != n {
                                let c = choose|c: int|
                                    0 <= c < pre.peers@.len() && (#[trigger] pre.peers@[c]).0@
                                        == m;
                                assert(c != i);
                                let c2: int = if c < i { c } else { c - 1 };
                                assert(post.peers@[c2].0@ == m);
                            }
                        }
                    }
                    assert forall|m: Seq<char>| #[trigger] post@.contains_key(m) implies post@[m]
                        == pre@[m] by {
                        let c = choose|c: int|
                            0 <= c < post.peers@.len() && (#[trigger] post.peers@[c]).0@ == m;
                        let c2: int = if c < i { c } else { c + 1 };
                        assert(pre.peers@[c2].0@ == m);
                        let d = choose|d: int|
                            0 <= d < pre.peers@.len() && (#[trigger] pre.peers@[d]).0@ == m;
                        assert(d == c2);
                        assert(post@[m] == post.peers@[c].1@);
                        assert(pre@[m] == pre.peers@[c2].1@);
                    }
                    assert(post@ =~= pre@.remove(n));
                }
                return ;
            }
            i = i + 1;
        }
        proof {
            assert(!pre@.contains_key(n));
            assert(pre@ =~= pre@.remove(n));
        }
    }

    /// Adds or replaces a peer's address.
    pub fn add_peer(&mut self, id: String, address: String)
        requires
            old(self).wf(),
        ensures
            final(self).wf(),
            final(self)@ == old(self)@.insert(id@, address@),
    {
        let ghost n = id@;
        let ghost a = address@;
        let ghost pre = *self;
        self.remove_peer(&id);
        let ghost mid = *self;
        self.peers.push((id, address));
        proof {
            let post = *self;
            assert(post.peers@ == mid.peers@.push(post.peers@.last()));
            assert(post.peers@.last().0@ == n);
            assert(post.peers@.last().1@ == a);
            assert forall|x: int, y: int| 0 <= x < y < post.peers@.len() implies (
            #[trigger] post.peers@[x]).0@ != (#[trigger] post.peers@[y]).0@ by {
                if y == post.peers@.len() - 1 {
                    assert(post.peers@[x] == mid.peers@[x]);
                    assert(!mid@.contains_key(n));
                    assert(mid@.contains_key(mid.peers@[x].0@));
                } else {
                    assert(post.peers@[x] == mid.peers@[x]);
                    assert(post.peers@[y] == mid.peers@[y]);
                }
            }
            assert forall|m: Seq<char>| post@.contains_key(m) <==> (mid@.contains_key(m) || m
                == n) by {
                if post@.contains_key(m) {
                    let k = choose|k: int|
                        0 <= k < post.peers@.len() && (#[trigger] post.peers@[k]).0@ == m;
                    if k < post.peers@.len() - 1 {
                        assert(mid.peers@[k].0@ == m);
                    }
                } else {
                    if mid@.contains_key(m) {
                        let k = choose|k: int|
                            0 <= k < mid.peers@.len() && (#[trigger] mid.peers@[k]).0@ == m;
                        assert(post.peers@[k].0@ == m);
                    }
                    if m == n {
                        assert(post.peers@[post.peers@.len() - 1].0@ == m);
                    }
                }
            }
            assert forall|m: Seq<char>| #[trigger] post@.contains_key(m) implies post@[m] == (
            if m == n {
                a
            } else {
                mid@[m]
            }) by {
                let k = choose|k: int|
                    0 <= k < post.peers@.len() && (#[trigger] post.peers@[k]).0@ == m;
                if m == n {
                    assert(k == post.peers@.len() - 1);
                    assert(post@[m] == post.peers@[k].1@);
                } else {
                    assert(k < post.peers@.len() - 1);
                    assert(mid.peers@[k].0@ == m);
                    let k2 = choose|k2: int|
                        0 <= k2 < mid.peers@.len() && (#[trigger] mid.peers@[k2]).0@ == m;
                    assert(k2 == k);
                    assert(post@[m] == post.peers@[k].1@);
                    assert(mid@[m] == mid.peers@[k].1@);
                }
            }
            assert(post@ =~= mid@.insert(n, a));
            assert(mid@ == pre@.remove(n));
            assert(pre@.remove(n).insert(n, a) =~= pre@.insert(n, a));
        }
    }

    /// The address of a peer, when the topology holds it.
    pub fn peer_address(&self, id: &str) -> (r: Option<String>)
        requires
            self.wf(),
        ensures
            r is Some <==> self@.contains_key(id@),
            r is Some ==> r->0@ == self@[id@],
    {
        let ghost n = id@;
        let mut i: usize = 0;
        while i < self.peers.len()
            invariant
                i <= self.peers@.len(),
                n == id@,
                self.wf(),
                forall|j: int| 0 <= j < i ==> (#[trigger] self.peers@[j]).0@ != n,
            decreases self.peers.len() - i,
        {
            if text::str_eq(self.peers[i].0.as_str(), id) {
                proof {
                    assert(self@.contains_key(n));
                    let k = choose|k: int|
                        0 <= k < self.peers@.len() && (#[trigger] self.peers@[k]).0@ == n;
                    assert(k == i);
                }
                return Some(self.peers[i].1.clone());
            }
            i = i + 1;
        }
        proof {
            assert(!self@.contains_key(n));
        }
        None
    }
}

} // verus!
