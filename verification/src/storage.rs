//! The storage core: a path index that maps each logical file name to
//! exactly one physical location, and a medium that owns the bytes stored
//! at those locations. The engine composes the two and keeps them from
//! diverging: every indexed name resolves to an occupied, readable
//! location.

use vstd::prelude::*;
use vstd::string::*;
use crate::errors::StorageError;
use crate::text;

verus! {

/// Whether `n` may serve as a logical file name: non-empty, no path
/// separator, and not a relative path segment.
pub open spec fn valid_name(n: Seq<char>) -> bool {
    &&& n.len() > 0
    &&& !n.contains('/')
    &&& !n.contains('\\')
    &&& n != "."@
    &&& n != ".."@
}

/// Decides `valid_name`.
pub fn is_valid_name(name: &str) -> (r: bool)
    ensures
        r == valid_name(name@),
{
    proof {
        reveal_strlit(".");
        reveal_strlit("..");
    }
    let chars = text::chars_of(name);
    if chars.len() == 0 {
        return false;
    }
    if chars.len() == 1 && chars[0] == '.' {
        proof {
            assert(chars@ =~= "."@);
        }
        return false;
    }
    if chars.len() == 2 && chars[0] == '.' && chars[1] == '.' {
        proof {
            assert(chars@ =~= ".."@);
        }
        return false;
    }
    let mut i: usize = 0;
    while i < chars.len()
        invariant
            i <= chars@.len(),
            chars@ == name@,
            forall|j: int| 0 <= j < i ==> chars@[j] != '/' && chars@[j] != '\\',
        decreases chars.len() - i,
    {
        if chars[i] == '/' || chars[i] == '\\' {
            proof {
                assert(name@[i as int] == chars@[i as int]);
            }
            return false;
        }
        i = i + 1;
    }
    proof {
        assert(!chars@.contains('/'));
        assert(!chars@.contains('\\'));
        if name@ == "."@ {
            assert(chars@.len() == 1 && chars@[0] == '.');
        }
        if name@ == ".."@ {
            assert(chars@.len() == 2 && chars@[0] == '.' && chars@[1] == '.');
        }
    }
    true
}

/// Whether some element of `s` views as `n`.
pub open spec fn name_in(s: Seq<String>, n: Seq<char>) -> bool {
    exists|i: int| 0 <= i < s.len() && (#[trigger] s[i])@ == n
}

/// Sorts pairwise-distinct names into strictly ascending lexicographic
/// order, keeping exactly the names given.
fn sort_names(v: Vec<String>) -> (r: Vec<String>)
    requires
        forall|i: int, j: int| 0 <= i < j < v@.len() ==> (#[trigger] v@[i])@ != (#[trigger] v@[j])@,
    ensures
        forall|n: Seq<char>| name_in(v@, n) <==> name_in(r@, n),
        forall|i: int, j: int|
            0 <= i < j < r@.len() ==> text::lex_lt((#[trigger] r@[i])@, (#[trigger] r@[j])@),
{
    let mut out: Vec<String> = Vec::new();
    let mut idx: usize = 0;
    while idx < v.len()
        invariant
            idx <= v@.len(),
            forall|i: int, j: int|
                0 <= i < j < v@.len() ==> (#[trigger] v@[i])@ != (#[trigger] v@[j])@,
            forall|n: Seq<char>| name_in(out@, n) <==> name_in(v@.subrange(0, idx as int), n),
            forall|i: int, j: int|
                0 <= i < j < out@.len() ==> text::lex_lt((#[trigger] out@[i])@, (
                #[trigger] out@[j])@),
        decreases v.len() - idx,
    {
        let x = v[idx].clone();
        let ghost xv = x@;
        proof {
            // x is not yet present: its view is absent from the prefix
            if name_in(out@, xv) {
                let k = choose|k: int|
                    0 <= k < v@.subrange(0, idx as int).len() && (#[trigger] v@.subrange(
                        0,
                        idx as int,
                    )[k])@ == xv;
                assert(v@[k]@ == xv);
                assert(v@[idx as int]@ == xv);
                assert(false);
            }
        }
        let mut pos: usize = 0;
        while pos < out.len() && str_le_exec(&out[pos], &x)
            invariant
                pos <= out@.len(),
                xv == x@,
                forall|k: int| 0 <= k < pos ==> text::lex_le((#[trigger] out@[k])@, xv),
                forall|i: int, j: int|
                    0 <= i < j < out@.len() ==> text::lex_lt((#[trigger] out@[i])@, (
                    #[trigger] out@[j])@),
            decreases out.len() - pos,
        {
            pos = pos + 1;
        }
        proof {
            // everything at or after the insertion point is above x
            assert forall|k: int| pos <= k < out@.len() implies text::lex_le(
                xv,
                (#[trigger] out@[k])@,
            ) by {
                text::lemma_lex_le_total(xv, out@[pos as int]@);
                if k > pos {
                    text::lemma_lex_le_trans(xv, out@[pos as int]@, out@[k]@);
                }
            }
        }
        let ghost outpre = out@;
        out.insert(pos, x);
        proof {
            let outpost = out@;
            assert(outpost == outpre.insert(pos as int, x));
            // strict order holds across the insertion point
            assert forall|i: int, j: int| 0 <= i < j < outpost.len() implies text::lex_lt(
                (#[trigger] outpost[i])@,
                (#[trigger] outpost[j])@,
            ) by {
                let i2: int = if i < pos {
                    i
                } else {
                    i - 1
                };
                let j2: int = if j < pos {
                    j
                } else {
                    j - 1
                };
                if i == pos {
                    assert(outpost[i]@ == xv);
                    assert(outpost[j] == outpre[j2]);
                    assert(!name_in(outpre, xv));
                    assert(outpre[j2]@ != xv);
                } else if j == pos {
                    assert(outpost[j]@ == xv);
                    assert(outpost[i] == outpre[i2]);
                    assert(!name_in(outpre, xv));
                    assert(outpre[i2]@ != xv);
                } else {
                    assert(outpost[i] == outpre[i2]);
                    assert(outpost[j] == outpre[j2]);
                    if i2 == j2 {
                        assert(i < pos && j > pos);
                        assert(false);
                    }
                }
            }
            // membership grows by exactly x
            assert forall|n: Seq<char>| name_in(outpost, n) <==> (name_in(outpre, n) || n
                == xv) by {
                if name_in(outpost, n) {
                    let k = choose|k: int| 0 <= k < outpost.len() && (#[trigger] outpost[k])@ == n;
                    if k != pos {
                        let k2: int = if k < pos {
                            k
                        } else {
                            k - 1
                        };
                        assert(outpre[k2]@ == n);
                    }
                } else {
                    assert(!name_in(outpre, n) && n != xv) by {
                        if name_in(outpre, n) {
                            let k = choose|k: int|
                                0 <= k < outpre.len() && (#[trigger] outpre[k])@ == n;
                            let k2: int = if k < pos {
                                k
                            } else {
                                k + 1
                            };
                            assert(outpost[k2]@ == n);
                        }
                        if n == xv {
                            assert(outpost[pos as int]@ == n);
                        }
                    }
                }
            }
            assert forall|n: Seq<char>| name_in(v@.subrange(0, idx + 1 as int), n) <==> (name_in(
                v@.subrange(0, idx as int),
                n,
            ) || n == xv) by {
                let prefix = v@.subrange(0, idx as int);
                let prefix1 = v@.subrange(0, idx + 1 as int);
                if name_in(prefix1, n) {
                    let k = choose|k: int| 0 <= k < prefix1.len() && (#[trigger] prefix1[k])@ == n;
                    if k < idx {
                        assert(prefix[k]@ == n);
                    } else {
                        assert(prefix1[k] == v@[idx as int]);
                    }
                } else {
                    if name_in(prefix, n) {
                        let k = choose|k: int|
                            0 <= k < prefix.len() && (#[trigger] prefix[k])@ == n;
                        assert(prefix1[k]@ == n);
                    }
                    if n == xv {
                        assert(prefix1[idx as int]@ == n);
                    }
                }
            }
        }
        idx = idx + 1;
    }
    proof {
        assert(v@.subrange(0, v@.len() as int) =~= v@);
    }
    out
}

/// Decides `lex_le` on two stored names.
fn str_le_exec(a: &String, b: &String) -> (r: bool)
    ensures
        r == text::lex_le(a@, b@),
{
    text::str_le(a.as_str(), b.as_str())
}

/// Clones a byte vector.
fn clone_bytes(v: &Vec<u8>) -> (r: Vec<u8>)
    ensures
        r@ == v@,
{
    let mut r: Vec<u8> = Vec::new();
    let mut i: usize = 0;
    while i < v.len()
        invariant
            i <= v@.len(),
            r@ == v@.subrange(0, i as int),
        decreases v.len() - i,
    {
        r.push(v[i]);
        proof {
            assert(v@.subrange(0, i as int).push(v@[i as int]) =~= v@.subrange(0, i + 1 as int));
        }
        i = i + 1;
    }
    proof {
        assert(v@.subrange(0, v@.len() as int) =~= v@);
    }
    r
}

/// The storage medium: the owner of persistent bytes. A location is a
/// handle into the medium; a deleted location stays unoccupied forever, so
/// handles are never reused.
pub struct Medium {
    slots: Vec<Option<Vec<u8>>>,
}

impl View for Medium {
    type V = Seq<Option<Seq<u8>>>;

    closed spec fn view(&self) -> Seq<Option<Seq<u8>>> {
        Seq::new(
            self.slots@.len(),
            |i: int|
                match self.slots@[i] {
                    Option::Some(v) => Option::Some(v@),
                    Option::None => Option::None,
                },
        )
    }
}

impl Medium {
    /// An empty medium with no occupied location.
    pub fn new() -> (r: Medium)
        ensures
            r@.len() == 0,
    {
        Medium { slots: Vec::new() }
    }

    /// Writes `bytes` to a fresh location and returns its handle.
    pub fn write(&mut self, bytes: Vec<u8>) -> (loc: usize)
        ensures
            final(self)@ == old(self)@.push(Option::Some(bytes@)),
            loc == old(self)@.len(),
    {
        let loc = self.slots.len();
        self.slots.push(Some(bytes));
        proof {
            assert(final(self)@ =~= old(self)@.push(Option::Some(bytes@)));
        }
        loc
    }

    /// Reads the bytes at `loc`; `None` when the location is absent or
    /// unoccupied.
    pub fn read(&self, loc: usize) -> (r: Option<Vec<u8>>)
        ensures
            (loc < self@.len() && self@[loc as int] is Some) ==> (r is Some && r->0@
                == self@[loc as int]->0),
            !(loc < self@.len() && self@[loc as int] is Some) ==> r is None,
    {
        if loc < self.slots.len() {
            match &self.slots[loc] {
                Some(v) => Some(clone_bytes(v)),
                None => None,
            }
        } else {
            None
        }
    }

    /// Deletes the object at `loc`; reports whether an occupied location
    /// was cleared.
    pub fn delete(&mut self, loc: usize) -> (r: bool)
        ensures
            loc < old(self)@.len() ==> final(self)@ == old(self)@.update(
                loc as int,
                Option::None,
            ),
            loc >= old(self)@.len() ==> final(self)@ == old(self)@,
            r == (loc < old(self)@.len() && old(self)@[loc as int] is Some),
    {
        if loc < self.slots.len() {
            let occupied = self.slots[loc].is_some();
            self.slots.set(loc, None);
            proof {
                assert(final(self)@ =~= old(self)@.update(loc as int, Option::None));
            }
            occupied
        } else {
            false
        }
    }
}

/// The path index: each stored name resolves to exactly one location.
pub struct PathIndex {
    entries: Vec<(String, usize)>,
}

impl View for PathIndex {
    type V = Map<Seq<char>, usize>;

    closed spec fn view(&self) -> Map<Seq<char>, usize> {
        Map::new(
            |n: Seq<char>| exists|i: int| 0 <= i < self.entries@.len() && (#[trigger] self.entries@[i]).0@ == n,
            |n: Seq<char>|
                self.entries@[choose|i: int|
                    0 <= i < self.entries@.len() && (#[trigger] self.entries@[i]).0@ == n].1,
        )
    }
}

impl PathIndex {
    /// Every name occurs at most once.
    pub closed spec fn wf(self) -> bool {
        forall|i: int, j: int|
            0 <= i < j < self.entries@.len() ==> (#[trigger] self.entries@[i]).0@ != (
            #[trigger] self.entries@[j]).0@
    }

    /// An empty index.
    pub fn new() -> (r: PathIndex)
        ensures
            r.wf(),
            r@ == Map::<Seq<char>, usize>::empty(),
    {
        let r = PathIndex { entries: Vec::new() };
        proof {
            assert(r@ =~= Map::<Seq<char>, usize>::empty());
        }
        r
    }

    /// The location of `name`, when the index holds it.
    pub fn lookup(&self, name: &str) -> (r: Option<usize>)
        requires
            self.wf(),
        ensures
            r is Some <==> self@.contains_key(name@),
            r is Some ==> r->0 == self@[name@],
    {
        let ghost n = name@;
        let mut i: usize = 0;
        while i < self.entries.len()
            invariant
                i <= self.entries@.len(),
                n == name@,
                self.wf(),
                forall|j: int| 0 <= j < i ==> (#[trigger] self.entries@[j]).0@ != n,
            decreases self.entries.len() - i,
        {
            if text::str_eq(self.entries[i].0.as_str(), name) {
                proof {
                    assert(self@.contains_key(n));
                    let k = choose|k: int|
                        0 <= k < self.entries@.len() && (#[trigger] self.entries@[k]).0@ == n;
                    assert(k == i);
                }
                return Some(self.entries[i].1);
            }
            i = i + 1;
        }
        proof {
            assert(!self@.contains_key(n));
        }
        None
    }

    /// Binds `name` to `loc`, replacing any earlier binding; returns the
    /// replaced location.
    pub fn insert(&mut self, name: &str, loc: usize) -> (prev: Option<usize>)
        requires
            old(self).wf(),
        ensures
            final(self).wf(),
            final(self)@ == old(self)@.insert(name@, loc),
            prev is Some <==> old(self)@.contains_key(name@),
            prev is Some ==> prev->0 == old(self)@[name@],
    {
        let ghost n = name@;
        let ghost pre = *self;
        let prev = self.remove(name);
        let ghost mid = *self;
        self.entries.push((name.to_owned(), loc));
        proof {
            let ghost post = *self;
            assert(post.entries@ == mid.entries@.push((post.entries@.last().0, loc)));
            assert(post.entries@.last().0@ == n);
            // well-formedness: the pushed name is absent from mid
            assert forall|i: int, j: int| 0 <= i < j < post.entries@.len() implies (
            #[trigger] post.entries@[i]).0@ != (#[trigger] post.entries@[j]).0@ by {
                if j == post.entries@.len() - 1 {
                    assert(post.entries@[i] == mid.entries@[i]);
                    assert(!mid@.contains_key(n));
                    assert(mid@.contains_key(mid.entries@[i].0@));
                } else {
                    assert(post.entries@[i] == mid.entries@[i]);
                    assert(post.entries@[j] == mid.entries@[j]);
                }
            }
            // view: push adds exactly the binding n -> loc
            assert forall|m: Seq<char>| post@.contains_key(m) <==> (mid@.contains_key(m) || m
                == n) by {
                if post@.contains_key(m) {
                    let k = choose|k: int|
                        0 <= k < post.entries@.len() && (#[trigger] post.entries@[k]).0@ == m;
                    if k < post.entries@.len() - 1 {
                        assert(mid.entries@[k].0@ == m);
                    }
                } else {
                    if mid@.contains_key(m) {
                        let k = choose|k: int|
                            0 <= k < mid.entries@.len() && (#[trigger] mid.entries@[k]).0@ == m;
                        assert(post.entries@[k].0@ == m);
                    }
                    if m == n {
                        assert(post.entries@[post.entries@.len() - 1].0@ == m);
                    }
                }
            }
            assert forall|m: Seq<char>| #[trigger] post@.contains_key(m) implies post@[m] == (
            if m == n {
                loc
            } else {
                mid@[m]
            }) by {
                let k = choose|k: int|
                    0 <= k < post.entries@.len() && (#[trigger] post.entries@[k]).0@ == m;
                if m == n {
                    assert(k == post.entries@.len() - 1);
                    assert(post@[m] == post.entries@[k].1);
                } else {
                    assert(k < post.entries@.len() - 1);
                    assert(mid.entries@[k].0@ == m);
                    let k2 = choose|k2: int|
                        0 <= k2 < mid.entries@.len() && (#[trigger] mid.entries@[k2]).0@ == m;
                    assert(k2 == k);
                    assert(post@[m] == post.entries@[k].1);
                    assert(mid@[m] == mid.entries@[k].1);
                }
            }
            assert(post@ =~= mid@.insert(n, loc));
            assert(mid@ == pre@.remove(n));
            assert(pre@.remove(n).insert(n, loc) =~= pre@.insert(n, loc));
        }
        prev
    }

    /// Unbinds `name`; returns the removed location.
    pub fn remove(&mut self, name: &str) -> (prev: Option<usize>)
        requires
            old(self).wf(),
        ensures
            final(self).wf(),
            final(self)@ == old(self)@.remove(name@),
            prev is Some <==> old(self)@.contains_key(name@),
            prev is Some ==> prev->0 == old(self)@[name@],
    {
        let ghost n = name@;
        let ghost pre = *self;
        let mut i: usize = 0;
        while i < self.entries.len()
            invariant
                i <= self.entries@.len(),
                n == name@,
                *self == pre,
                pre == *old(self),
                pre.wf(),
                forall|j: int| 0 <= j < i ==> (#[trigger] pre.entries@[j]).0@ != n,
            decreases self.entries.len() - i,
        {
            if text::str_eq(self.entries[i].0.as_str(), name) {
                let removed = self.entries.remove(i);
                proof {
                    let ghost post = *self;
                    assert(post.entries@ == pre.entries@.remove(i as int));
                    // the removed binding was the only one for n
                    assert(pre@.contains_key(n));
                    let k = choose|k: int|
                        0 <= k < pre.entries@.len() && (#[trigger] pre.entries@[k]).0@ == n;
                    assert(k == i);
                    assert(pre@[n] == pre.entries@[i as int].1);
                    // well-formedness survives removal
                    assert forall|a: int, b: int| 0 <= a < b < post.entries@.len() implies (
                    #[trigger] post.entries@[a]).0@ != (#[trigger] post.entries@[b]).0@ by {
                        let a2: int = if a < i { a } else { a + 1 };
                        let b2: int = if b < i { b } else { b + 1 };
                        assert(post.entries@[a] == pre.entries@[a2]);
                        assert(post.entries@[b] == pre.entries@[b2]);
                    }
                    // view: removal drops exactly n
                    assert forall|m: Seq<char>| post@.contains_key(m) <==> (pre@.contains_key(m)
                        && m != n) by {
                        if post@.contains_key(m) {
                            let c = choose|c: int|
                                0 <= c < post.entries@.len() && (#[trigger] post.entries@[c]).0@
                                    == m;
                            let c2: int = if c < i { c } else { c + 1 };
                            assert(pre.entries@[c2].0@ == m);
                            assert(c2 != i);
                        } else {
                            if pre@.contains_key(m) && m != n {
                                let c = choose|c: int|
                                    0 <= c < pre.entries@.len() && (#[trigger] pre.entries@[c]).0@
                                        == m;
                                assert(c != i);
                                let c2: int = if c < i { c } else { c - 1 };
                                assert(post.entries@[c2].0@ == m);
                            }
                        }
                    }
                    assert forall|m: Seq<char>| #[trigger] post@.contains_key(m) implies post@[m]
                        == pre@[m] by {
                        let c = choose|c: int|
                            0 <= c < post.entries@.len() && (#[trigger] post.entries@[c]).0@ == m;
                        let c2: int = if c < i { c } else { c + 1 };
                        assert(pre.entries@[c2].0@ == m);
                        let d = choose|d: int|
                            0 <= d < pre.entries@.len() && (#[trigger] pre.entries@[d]).0@ == m;
                        assert(d == c2);
                        assert(post@[m] == post.entries@[c].1);
                        assert(pre@[m] == pre.entries@[c2].1);
                    }
                    assert(post@ =~= pre@.remove(n));
                }
                return Some(removed.1);
            }
            i = i + 1;
        }
        proof {
            assert(!pre@.contains_key(n));
            assert(pre@ =~= pre@.remove(n));
        }
        None
    }

    /// All stored names, each exactly once, in index order.
    pub fn names(&self) -> (r: Vec<String>)
        requires
            self.wf(),
        ensures
            forall|n: Seq<char>| self@.contains_key(n) <==> name_in(r@, n),
            forall|i: int, j: int| 0 <= i < j < r@.len() ==> (#[trigger] r@[i])@ != (
            #[trigger] r@[j])@,
    {
        let mut r: Vec<String> = Vec::new();
        let mut i: usize = 0;
        while i < self.entries.len()
            invariant
                i <= self.entries@.len(),
                self.wf(),
                r@.len() == i,
                forall|j: int| 0 <= j < i ==> (#[trigger] r@[j])@ == self.entries@[j].0@,
            decreases self.entries.len() - i,
        {
            r.push(self.entries[i].0.clone());
            i = i + 1;
        }
        proof {
            assert forall|n: Seq<char>| self@.contains_key(n) <==> name_in(r@, n) by {
                if self@.contains_key(n) {
                    let k = choose|k: int|
                        0 <= k < self.entries@.len() && (#[trigger] self.entries@[k]).0@ == n;
                    assert(r@[k]@ == n);
                }
                if name_in(r@, n) {
                    let k = choose|k: int| 0 <= k < r@.len() && (#[trigger] r@[k])@ == n;
                    assert(self.entries@[k].0@ == n);
                }
            }
        }
        r
    }

}

/// The storage engine: the path index and the medium, kept consistent. Its
/// view is the map from stored names to their bytes.
pub struct StorageEngine {
    index: PathIndex,
    medium: Medium,
}

impl View for StorageEngine {
    type V = Map<Seq<char>, Seq<u8>>;

    closed spec fn view(&self) -> Map<Seq<char>, Seq<u8>> {
        Map::new(
            |n: Seq<char>| self.index@.contains_key(n),
            |n: Seq<char>| self.medium@[self.index@[n] as int]->0,
        )
    }
}

impl StorageEngine {
    /// The index and the medium agree: every indexed name resolves to an
    /// occupied location, and no two names share one.
    pub closed spec fn wf(self) -> bool {
        &&& self.index.wf()
        &&& forall|n: Seq<char>| #[trigger]
            self.index@.contains_key(n) ==> self.index@[n] < self.medium@.len()
                && self.medium@[self.index@[n] as int] is Some
        &&& forall|n1: Seq<char>, n2: Seq<char>|
            self.index@.contains_key(n1) && self.index@.contains_key(n2) && n1 != n2
                ==> #[trigger] self.index@[n1] != #[trigger] self.index@[n2]
    }

    /// An empty engine.
    pub fn new() -> (r: StorageEngine)
        ensures
            r.wf(),
            r@ == Map::<Seq<char>, Seq<u8>>::empty(),
    {
        let r = StorageEngine { index: PathIndex::new(), medium: Medium::new() };
        proof {
            assert(r@ =~= Map::<Seq<char>, Seq<u8>>::empty());
        }
        r
    }

    /// Stores `bytes` under `name`, overwriting any prior entry. The write
    /// reaches the medium before the index is touched, so a failed write
    /// can never leave a dangling index entry.
    pub fn store(&mut self, name: &str, bytes: Vec<u8>) -> (r: Result<(), StorageError>)
        requires
            old(self).wf(),
        ensures
            final(self).wf(),
            valid_name(name@) ==> r == Result::<(), StorageError>::Ok(()) && final(self)@
                == old(self)@.insert(name@, bytes@),
            !valid_name(name@) ==> r == Result::<(), StorageError>::Err(
                StorageError::InvalidName,
            ) && final(self)@ == old(self)@,
    {
        let ghost n = name@;
        let ghost b = bytes@;
        if !is_valid_name(name) {
            return Err(StorageError::InvalidName);
        }
        let ghost pre = *self;
        let loc = self.medium.write(bytes);
        let prev = self.index.insert(name, loc);
        if let Some(old_loc) = prev {
            proof {
                assert(pre.index@.contains_key(n));
                assert(old_loc == pre.index@[n]);
            }
            self.medium.delete(old_loc);
        }
        proof {
            let post = *self;
            assert(post.index@ == pre.index@.insert(n, loc));
            // every binding other than n is unchanged and still resolves
            assert forall|m: Seq<char>| #[trigger] post.index@.contains_key(m) implies
                post.index@[m] < post.medium@.len() && post.medium@[post.index@[m] as int]
                is Some by {
                if m == n {
                    assert(post.index@[m] == loc);
                    if pre.index@.contains_key(n) {
                        assert(pre.index@[n] < loc);
                    }
                } else {
                    assert(pre.index@.contains_key(m));
                    assert(post.index@[m] == pre.index@[m]);
                    if pre.index@.contains_key(n) {
                        assert(pre.index@[m] != pre.index@[n]);
                    }
                }
            }
            assert forall|m1: Seq<char>, m2: Seq<char>|
                post.index@.contains_key(m1) && post.index@.contains_key(m2) && m1 != m2 implies
                #[trigger] post.index@[m1] != #[trigger] post.index@[m2] by {
                if m1 == n {
                    assert(pre.index@.contains_key(m2));
                    assert(pre.index@[m2] < loc);
                } else if m2 == n {
                    assert(pre.index@.contains_key(m1));
                    assert(pre.index@[m1] < loc);
                } else {
                    assert(pre.index@.contains_key(m1));
                    assert(pre.index@.contains_key(m2));
                }
            }
            assert(post.wf());
            assert forall|m: Seq<char>| #[trigger] post@.contains_key(m) implies post@[m] == (
            if m == n {
                b
            } else {
                pre@[m]
            }) by {
                if m == n {
                    assert(post.index@[m] == loc);
                    assert(post.medium@[loc as int] is Some);
                    assert(post.medium@[loc as int]->0 == b);
                } else {
                    assert(pre.index@.contains_key(m));
                    assert(post.index@[m] == pre.index@[m]);
                    assert(pre.index@[m] < pre.medium@.len());
                    if pre.index@.contains_key(n) {
                        assert(pre.index@[m] != pre.index@[n]);
                    }
                    let ghost lm = pre.index@[m] as int;
                    assert(post.medium@[lm] == pre.medium@[lm]);
                }
            }
            assert(post@ =~= pre@.insert(n, b));
        }
        Ok(())
    }

    /// The bytes stored under `name`. `NotFound` reports an absent name;
    /// `MediumError` reports an index entry whose location the medium can
    /// no longer read, a consistency violation that is surfaced, never
    /// ignored.
    pub fn retrieve(&self, name: &str) -> (r: Result<Vec<u8>, StorageError>)
        requires
            self.wf(),
        ensures
            self@.contains_key(name@) ==> r is Ok && r->Ok_0@ == self@[name@],
            !self@.contains_key(name@) ==> r == Result::<Vec<u8>, StorageError>::Err(
                StorageError::NotFound,
            ),
    {
        match self.index.lookup(name) {
            None => Err(StorageError::NotFound),
            Some(loc) => match self.medium.read(loc) {
                Some(bytes) => Ok(bytes),
                None => Err(StorageError::MediumError),
            },
        }
    }

    /// Removes `name` and its bytes. The medium object is deleted before
    /// the index entry, so an interruption between the two steps leaves a
    /// detectable dangling entry rather than a silent orphan object.
    pub fn delete(&mut self, name: &str) -> (r: Result<(), StorageError>)
        requires
            old(self).wf(),
        ensures
            final(self).wf(),
            old(self)@.contains_key(name@) ==> r == Result::<(), StorageError>::Ok(())
                && final(self)@ == old(self)@.remove(name@),
            !old(self)@.contains_key(name@) ==> r == Result::<(), StorageError>::Err(
                StorageError::NotFound,
            ) && final(self)@ == old(self)@,
    {
        let ghost n = name@;
        let ghost pre = *self;
        match self.index.lookup(name) {
            None => Err(StorageError::NotFound),
            Some(loc) => {
                self.medium.delete(loc);
                self.index.remove(name);
                proof {
                    let post = *self;
                    assert(post.index@ == pre.index@.remove(n));
                    assert(loc == pre.index@[n]);
                    assert forall|m: Seq<char>| #[trigger] post.index@.contains_key(m) implies
                        post.index@[m] < post.medium@.len() && post.medium@[post.index@[m] as int]
                        is Some && post.medium@[post.index@[m] as int] == pre.medium@[pre.index@[m] as int] by {
                        assert(pre.index@.contains_key(m));
                        assert(m != n);
                        assert(post.index@[m] == pre.index@[m]);
                        assert(pre.index@[m] != loc);
                    }
                    assert(post.wf());
                    assert(post@ =~= pre@.remove(n));
                }
                Ok(())
            },
        }
    }

    /// All stored names, in strictly ascending lexicographic order.
    pub fn list(&self) -> (r: Vec<String>)
        requires
            self.wf(),
        ensures
            forall|n: Seq<char>| self@.contains_key(n) <==> name_in(r@, n),
            forall|i: int, j: int|
                0 <= i < j < r@.len() ==> text::lex_lt((#[trigger] r@[i])@, (#[trigger] r@[j])@),
    {
        let names = self.index.names();
        let r = sort_names(names);
        proof {
            assert forall|n: Seq<char>| self@.contains_key(n) <==> name_in(r@, n) by {
                assert(self@.contains_key(n) <==> self.index@.contains_key(n));
            }
        }
        r
    }

    /// The stored names that contain `substring` as a literal,
    /// case-sensitive run of characters, in strictly ascending
    /// lexicographic order. No match is an empty listing, not an error.
    pub fn search(&self, substring: &str) -> (r: Vec<String>)
        requires
            self.wf(),
        ensures
            forall|n: Seq<char>|
                (self@.contains_key(n) && text::contains_sub(n, substring@)) <==> name_in(r@, n),
            forall|i: int, j: int|
                0 <= i < j < r@.len() ==> text::lex_lt((#[trigger] r@[i])@, (#[trigger] r@[j])@),
    {
        let names = self.index.names();
        let mut matched: Vec<String> = Vec::new();
        let mut i: usize = 0;
        while i < names.len()
            invariant
                i <= names@.len(),
                forall|a: int, b: int|
                    0 <= a < b < names@.len() ==> (#[trigger] names@[a])@ != (
                    #[trigger] names@[b])@,
                forall|n: Seq<char>|
                    name_in(matched@, n) <==> (name_in(names@.subrange(0, i as int), n)
                        && text::contains_sub(n, substring@)),
                forall|a: int, b: int|
                    0 <= a < b < matched@.len() ==> (#[trigger] matched@[a])@ != (
                    #[trigger] matched@[b])@,
            decreases names.len() - i,
        {
            let ghost matchedpre = matched@;
            let ghost ni = names@[i as int]@;
            let is_match = text::str_contains_sub(names[i].as_str(), substring);
            if is_match {
                matched.push(names[i].clone());
            }
            proof {
                let prefix = names@.subrange(0, i as int);
                let prefix1 = names@.subrange(0, i + 1 as int);
                // ni is absent from the prefix, hence also from matchedpre
                assert(!name_in(prefix, ni)) by {
                    if name_in(prefix, ni) {
                        let k = choose|k: int| 0 <= k < prefix.len() && (#[trigger] prefix[k])@ == ni;
                        assert(names@[k]@ == ni);
                        assert(names@[i as int]@ == ni);
                        assert(false);
                    }
                }
                assert forall|n: Seq<char>| name_in(prefix1, n) <==> (name_in(prefix, n) || n
                    == ni) by {
                    if name_in(prefix1, n) {
                        let k = choose|k: int|
                            0 <= k < prefix1.len() && (#[trigger] prefix1[k])@ == n;
                        if k < i {
                            assert(prefix[k]@ == n);
                        } else {
                            assert(prefix1[k] == names@[i as int]);
                        }
                    } else {
                        if name_in(prefix, n) {
                            let k = choose|k: int|
                                0 <= k < prefix.len() && (#[trigger] prefix[k])@ == n;
                            assert(prefix1[k]@ == n);
                        }
                        if n == ni {
                            assert(prefix1[i as int]@ == n);
                        }
                    }
                }
                // membership of matched after the push, if any
                assert forall|n: Seq<char>| name_in(matched@, n) <==> (name_in(matchedpre, n) || (
                is_match && n == ni)) by {
                    if is_match {
                        assert(matched@ == matchedpre.push(names@[i as int]));
                        if name_in(matched@, n) {
                            let k = choose|k: int|
                                0 <= k < matched@.len() && (#[trigger] matched@[k])@ == n;
                            if k < matchedpre.len() {
                                assert(matchedpre[k]@ == n);
                            } else {
                                assert(matched@[k] == names@[i as int]);
                            }
                        } else {
                            if name_in(matchedpre, n) {
                                let k = choose|k: int|
                                    0 <= k < matchedpre.len() && (#[trigger] matchedpre[k])@ == n;
                                assert(matched@[k]@ == n);
                            }
                            if n == ni {
                                assert(matched@[matched@.len() - 1]@ == n);
                            }
                        }
                    }
                }
                // the new matched set is exactly the matching names of the
                // extended prefix
                assert(is_match == text::contains_sub(ni, substring@));
                assert forall|n: Seq<char>| name_in(matched@, n) <==> (name_in(prefix1, n)
                    && text::contains_sub(n, substring@)) by {
                    assert(name_in(matchedpre, n) <==> (name_in(prefix, n) && text::contains_sub(
                        n,
                        substring@,
                    )));
                    assert(name_in(matched@, n) <==> (name_in(matchedpre, n) || (is_match && n
                        == ni)));
                    assert(name_in(prefix1, n) <==> (name_in(prefix, n) || n == ni));
                }
                // pairwise distinctness after the push
                assert forall|a: int, b: int| 0 <= a < b < matched@.len() implies (
                #[trigger] matched@[a])@ != (#[trigger] matched@[b])@ by {
                    if is_match && b == matched@.len() - 1 {
                        assert(matched@[a] == matchedpre[a]);
                        assert(name_in(matchedpre, matchedpre[a]@));
                        assert(matched@[b]@ == ni);
                        assert(!name_in(matchedpre, ni));
                    }
                }
            }
            i = i + 1;
        }
        proof {
            assert(names@.subrange(0, names@.len() as int) =~= names@);
        }
        let r = sort_names(matched);
        r
    }
}

/// The per-item result of storing `n`: names are validated independently,
/// so one rejected name never blocks the rest of a batch.
pub open spec fn store_outcome(n: Seq<char>) -> Result<(), StorageError> {
    if valid_name(n) {
        Result::Ok(())
    } else {
        Result::Err(StorageError::InvalidName)
    }
}

/// The map that results from applying a batch of stores in order.
pub open spec fn apply_store_batch(
    m: Map<Seq<char>, Seq<u8>>,
    items: Seq<(String, Vec<u8>)>,
) -> Map<Seq<char>, Seq<u8>>
    decreases items.len(),
{
    if items.len() == 0 {
        m
    } else {
        let prev = apply_store_batch(m, items.drop_last());
        if valid_name(items.last().0@) {
            prev.insert(items.last().0@, items.last().1@)
        } else {
            prev
        }
    }
}

/// The map that results from applying a batch of deletes in order.
pub open spec fn apply_delete_batch(
    m: Map<Seq<char>, Seq<u8>>,
    names: Seq<String>,
) -> Map<Seq<char>, Seq<u8>>
    decreases names.len(),
{
    if names.len() == 0 {
        m
    } else {
        apply_delete_batch(m, names.drop_last()).remove(names.last()@)
    }
}

/// The per-item result of the `i`-th delete in a batch: found or not at
/// the moment it is attempted, with the earlier deletes already applied.
pub open spec fn delete_outcome(
    m: Map<Seq<char>, Seq<u8>>,
    names: Seq<String>,
    i: int,
) -> Result<(), StorageError> {
    if apply_delete_batch(m, names.subrange(0, i)).contains_key(names[i]@) {
        Result::Ok(())
    } else {
        Result::Err(StorageError::NotFound)
    }
}

impl StorageEngine {
    /// Stores a batch of files, applying each item independently and
    /// reporting a result per item; one failure never aborts the batch.
    pub fn store_files(&mut self, files: &Vec<(String, Vec<u8>)>) -> (r: Vec<
        Result<(), StorageError>,
    >)
        requires
            old(self).wf(),
        ensures
            final(self).wf(),
            final(self)@ == apply_store_batch(old(self)@, files@),
            r@.len() == files@.len(),
            forall|i: int| 0 <= i < files@.len() ==> #[trigger] r@[i] == store_outcome(files@[i].0@),
    {
        let mut r: Vec<Result<(), StorageError>> = Vec::new();
        let mut i: usize = 0;
        while i < files.len()
            invariant
                i <= files@.len(),
                self.wf(),
                self@ == apply_store_batch(old(self)@, files@.subrange(0, i as int)),
                r@.len() == i,
                forall|k: int| 0 <= k < i ==> #[trigger] r@[k] == store_outcome(files@[k].0@),
            decreases files.len() - i,
        {
            let bytes = clone_bytes(&files[i].1);
            let res = self.store(files[i].0.as_str(), bytes);
            r.push(res);
            proof {
                let prefix1 = files@.subrange(0, i + 1 as int);
                assert(prefix1.drop_last() =~= files@.subrange(0, i as int));
                assert(prefix1.last() == files@[i as int]);
            }
            i = i + 1;
        }
        proof {
            assert(files@.subrange(0, files@.len() as int) =~= files@);
        }
        r
    }

    /// Retrieves a batch of files, reporting bytes or `NotFound` per item.
    pub fn retrieve_files(&self, names: &Vec<String>) -> (r: Vec<Result<Vec<u8>, StorageError>>)
        requires
            self.wf(),
        ensures
            r@.len() == names@.len(),
            forall|i: int|
                0 <= i < names@.len() && self@.contains_key(names@[i]@) ==> (#[trigger] r@[i])
                    is Ok && r@[i]->Ok_0@ == self@[names@[i]@],
            forall|i: int|
                0 <= i < names@.len() && !self@.contains_key(names@[i]@) ==> #[trigger] r@[i]
                    == Result::<Vec<u8>, StorageError>::Err(StorageError::NotFound),
    {
        let mut r: Vec<Result<Vec<u8>, StorageError>> = Vec::new();
        let mut i: usize = 0;
        while i < names.len()
            invariant
                i <= names@.len(),
                self.wf(),
                r@.len() == i,
                forall|k: int|
                    0 <= k < i && self@.contains_key(names@[k]@) ==> (#[trigger] r@[k]) is Ok
                        && r@[k]->Ok_0@ == self@[names@[k]@],
                forall|k: int|
                    0 <= k < i && !self@.contains_key(names@[k]@) ==> #[trigger] r@[k]
                        == Result::<Vec<u8>, StorageError>::Err(StorageError::NotFound),
            decreases names.len() - i,
        {
            let res = self.retrieve(names[i].as_str());
            r.push(res);
            i = i + 1;
        }
        r
    }

    /// Deletes a batch of names, applying each delete independently and
    /// reporting a result per item.
    pub fn delete_files(&mut self, names: &Vec<String>) -> (r: Vec<Result<(), StorageError>>)
        requires
            old(self).wf(),
        ensures
            final(self).wf(),
            final(self)@ == apply_delete_batch(old(self)@, names@),
            r@.len() == names@.len(),
            forall|i: int|
                0 <= i < names@.len() ==> #[trigger] r@[i] == delete_outcome(
                    old(self)@,
                    names@,
                    i,
                ),
    {
        let mut r: Vec<Result<(), StorageError>> = Vec::new();
        let mut i: usize = 0;
        while i < names.len()
            invariant
                i <= names@.len(),
                self.wf(),
                self@ == apply_delete_batch(old(self)@, names@.subrange(0, i as int)),
                r@.len() == i,
                forall|k: int|
                    0 <= k < i ==> #[trigger] r@[k] == delete_outcome(old(self)@, names@, k),
            decreases names.len() - i,
        {
            let res = self.delete(names[i].as_str());
            r.push(res);
            proof {
                let prefix1 = names@.subrange(0, i + 1 as int);
                assert(prefix1.drop_last() =~= names@.subrange(0, i as int));
                assert(prefix1.last() == names@[i as int]);
                if !apply_delete_batch(old(self)@, names@.subrange(0, i as int)).contains_key(
                    names@[i as int]@,
                ) {
                    assert(apply_delete_batch(old(self)@, names@.subrange(0, i as int)).remove(
                        names@[i as int]@,
                    ) =~= apply_delete_batch(old(self)@, names@.subrange(0, i as int)));
                }
            }
            i = i + 1;
        }
        proof {
            assert(names@.subrange(0, names@.len() as int) =~= names@);
        }
        r
    }
}

/// Round trip: a successful `store(name, bytes)` makes the store's map
/// `m.insert(name, bytes)`, and on that map `retrieve(name)` finds the
/// name and returns exactly `bytes`, unchanged, by its contract.
pub proof fn lemma_store_then_retrieve(
    m: Map<Seq<char>, Seq<u8>>,
    name: Seq<char>,
    bytes: Seq<u8>,
)
    requires
        valid_name(name),
    ensures
        m.insert(name, bytes).contains_key(name),
        m.insert(name, bytes)[name] == bytes,
{
}

/// Last write wins: storing twice under one name leaves the second
/// content, and `retrieve` returns it, with no versioning.
pub proof fn lemma_last_write_wins(
    m: Map<Seq<char>, Seq<u8>>,
    name: Seq<char>,
    b1: Seq<u8>,
    b2: Seq<u8>,
)
    requires
        valid_name(name),
    ensures
        m.insert(name, b1).insert(name, b2).contains_key(name),
        m.insert(name, b1).insert(name, b2)[name] == b2,
{
}

/// Concurrent stores to one name are serialised by the store's
/// exclusive access: whichever of the two orders the lock admits, the
/// name afterwards holds one caller's bytes entire — never a mix.
pub proof fn lemma_concurrent_stores_serialise(
    m: Map<Seq<char>, Seq<u8>>,
    name: Seq<char>,
    b1: Seq<u8>,
    b2: Seq<u8>,
)
    requires
        valid_name(name),
    ensures
        m.insert(name, b1).insert(name, b2)[name] == b2,
        m.insert(name, b2).insert(name, b1)[name] == b1,
{
}

/// A name never stored is absent from the empty store, so `retrieve`
/// and `delete` both report `NotFound` for it, by their contracts.
pub proof fn lemma_fresh_name_absent(name: Seq<char>)
    ensures
        !Map::<Seq<char>, Seq<u8>>::empty().contains_key(name),
{
}

} // verus!
