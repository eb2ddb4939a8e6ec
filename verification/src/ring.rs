//! The ring itself: a sorted array of `(key, node)` entries, with sorted
//! insertion, removal by key, and logarithmic successor lookup.

use core::marker::PhantomData;
use vstd::prelude::*;

use crate::hash::hash_bytes;
use crate::hash::hash_of;
use crate::ident::Identity;

verus! {

/// One ring entry: a node together with the ring position (`key`) of its
/// identity.
pub struct Node<T> {
    pub key: u64,
    pub node: T,
}

impl<T> Node<T> {
    pub fn new(key: u64, node: T) -> (n: Node<T>)
        ensures
            n == (Node { key, node }),
    {
        Node { key, node }
    }
}

/// Entries stand in non-decreasing order of their keys.
pub open spec fn sorted<T>(s: Seq<Node<T>>) -> bool {
    forall|i: int, j: int| 0 <= i <= j < s.len() ==> s[i].key <= s[j].key
}

/// No two entries share a key.
pub open spec fn distinct_keys<T>(s: Seq<Node<T>>) -> bool {
    forall|i: int, j: int| 0 <= i < j < s.len() ==> s[i].key != s[j].key
}

/// The first index whose key is at least `h`, or `s.len()` if there is none.
pub open spec fn first_ge_spec<T>(s: Seq<Node<T>>, h: u64) -> int
    decreases s.len(),
{
    if s.len() == 0 {
        0
    } else if s[0].key >= h {
        0
    } else {
        1 + first_ge_spec(s.drop_first(), h)
    }
}

/// The first index whose key is greater than `h`, or `s.len()` if there is
/// none.
pub open spec fn first_gt_spec<T>(s: Seq<Node<T>>, h: u64) -> int
    decreases s.len(),
{
    if s.len() == 0 {
        0
    } else if s[0].key > h {
        0
    } else {
        1 + first_gt_spec(s.drop_first(), h)
    }
}

/// Some entry has key `h`.
pub open spec fn found<T>(s: Seq<Node<T>>, h: u64) -> bool {
    exists|i: int| 0 <= i < s.len() && s[i].key == h
}

/// The index `get` answers from for a query hash `h`: the first entry at or
/// after `h`, wrapping around to the first entry when `h` lies past every
/// stored key.
pub open spec fn succ_spec<T>(s: Seq<Node<T>>, h: u64) -> int {
    if first_ge_spec(s, h) == s.len() {
        0
    } else {
        first_ge_spec(s, h)
    }
}

/// What `add` does to the entries: the new entry goes after every entry
/// whose key is at most its own, so equal keys keep insertion order.
pub open spec fn spec_add<T>(s: Seq<Node<T>>, e: Node<T>) -> Seq<Node<T>> {
    s.insert(first_gt_spec(s, e.key), e)
}

/// `first_ge_spec` is the least index whose key reaches `h`.
pub proof fn lemma_first_ge_props<T>(s: Seq<Node<T>>, h: u64)
    ensures
        0 <= first_ge_spec(s, h) <= s.len(),
        forall|j: int| 0 <= j < first_ge_spec(s, h) ==> s[j].key < h,
        first_ge_spec(s, h) < s.len() ==> s[first_ge_spec(s, h)].key >= h,
    decreases s.len(),
{
    if s.len() == 0 {
    } else if s[0].key >= h {
    } else {
        lemma_first_ge_props(s.drop_first(), h);
        let f = first_ge_spec(s, h);
        assert forall|j: int| 0 <= j < f implies s[j].key < h by {
            if j >= 1 {
                assert(s.drop_first()[j - 1] == s[j]);
            }
        }
        if f < s.len() {
            assert(s.drop_first()[f - 1] == s[f]);
        }
    }
}

/// `first_gt_spec` is the least index whose key exceeds `h`.
pub proof fn lemma_first_gt_props<T>(s: Seq<Node<T>>, h: u64)
    ensures
        0 <= first_gt_spec(s, h) <= s.len(),
        forall|j: int| 0 <= j < first_gt_spec(s, h) ==> s[j].key <= h,
        first_gt_spec(s, h) < s.len() ==> s[first_gt_spec(s, h)].key > h,
    decreases s.len(),
{
    if s.len() == 0 {
    } else if s[0].key > h {
    } else {
        lemma_first_gt_props(s.drop_first(), h);
        let f = first_gt_spec(s, h);
        assert forall|j: int| 0 <= j < f implies s[j].key <= h by {
            if j >= 1 {
                assert(s.drop_first()[j - 1] == s[j]);
            }
        }
        if f < s.len() {
            assert(s.drop_first()[f - 1] == s[f]);
        }
    }
}

/// Any index with the defining property of `first_ge_spec` is it.
pub proof fn lemma_first_ge_unique<T>(s: Seq<Node<T>>, h: u64, r: int)
    requires
        0 <= r <= s.len(),
        forall|j: int| 0 <= j < r ==> s[j].key < h,
        r < s.len() ==> s[r].key >= h,
    ensures
        r == first_ge_spec(s, h),
{
    lemma_first_ge_props(s, h);
    let f = first_ge_spec(s, h);
    if r < f {
        assert(s[r].key < h);
    } else if f < r {
        assert(s[f].key < h);
    }
}

/// Any index with the defining property of `first_gt_spec` is it.
pub proof fn lemma_first_gt_unique<T>(s: Seq<Node<T>>, h: u64, r: int)
    requires
        0 <= r <= s.len(),
        forall|j: int| 0 <= j < r ==> s[j].key <= h,
        r < s.len() ==> s[r].key > h,
    ensures
        r == first_gt_spec(s, h),
{
    lemma_first_gt_props(s, h);
    let f = first_gt_spec(s, h);
    if r < f {
        assert(s[r].key <= h);
    } else if f < r {
        assert(s[f].key <= h);
    }
}

/// In a sorted ring, a key is present if and only if it is found exactly at
/// `first_ge_spec`.
pub proof fn lemma_found_at_first_ge<T>(s: Seq<Node<T>>, h: u64)
    requires
        sorted(s),
    ensures
        found(s, h) <==> (first_ge_spec(s, h) < s.len() && s[first_ge_spec(s, h)].key == h),
{
    lemma_first_ge_props(s, h);
    let f = first_ge_spec(s, h);
    if found(s, h) {
        let i = choose|i: int| 0 <= i < s.len() && s[i].key == h;
        assert(f <= i);
        assert(s[f].key <= s[i].key);
    }
}

/// Inserting at `first_gt_spec` keeps the entries sorted.
pub proof fn lemma_add_sorted<T>(s: Seq<Node<T>>, e: Node<T>)
    requires
        sorted(s),
    ensures
        sorted(spec_add(s, e)),
        spec_add(s, e).len() == s.len() + 1,
{
    let p = first_gt_spec(s, e.key);
    lemma_first_gt_props(s, e.key);
    s.insert_ensures(p, e);
    let t = spec_add(s, e);
    assert forall|i: int, j: int| 0 <= i <= j < t.len() implies t[i].key <= t[j].key by {
        if i < p {
            assert(t[i] == s[i]);
        } else if i > p {
            assert(t[i] == s[i - 1]);
        }
        if j < p {
            assert(t[j] == s[j]);
        } else if j > p {
            assert(t[j] == s[j - 1]);
        }
    }
}

/// Removing any entry keeps the rest sorted.
pub proof fn lemma_remove_sorted<T>(s: Seq<Node<T>>, i: int)
    requires
        sorted(s),
        0 <= i < s.len(),
    ensures
        sorted(s.remove(i)),
{
    s.remove_ensures(i);
    let t = s.remove(i);
    assert forall|p: int, q: int| 0 <= p <= q < t.len() implies t[p].key <= t[q].key by {
        if p < i {
            assert(t[p] == s[p]);
        } else {
            assert(t[p] == s[p + 1]);
        }
        if q < i {
            assert(t[q] == s[q]);
        } else {
            assert(t[q] == s[q + 1]);
        }
    }
}

/// A consistent hash ring over nodes of type `T`, looked up by keys of type
/// `U`.
///
/// Both types take part only through their canonical byte [`Identity`]: the
/// ring never compares node values structurally. In particular, `remove` is
/// keyed purely by the hash of the identity, so two nodes with equal
/// identities are indistinguishable to the ring, and callers that care must
/// keep identities unique.
///
/// The ring is a single-owner, in-memory structure with no internal
/// synchronization; concurrent use is the caller's responsibility.
pub struct HashRing<T, U> {
    ring: Vec<Node<T>>,
    phantom: PhantomData<U>,
}

impl<T, U> View for HashRing<T, U> {
    type V = Seq<Node<T>>;

    closed spec fn view(&self) -> Seq<Node<T>> {
        self.ring@
    }
}

impl<T, U> HashRing<T, U> {
    /// The ring invariant: entries sorted by key. Every constructor and
    /// mutating operation maintains it.
    pub open spec fn wf(&self) -> bool {
        sorted(self@)
    }
}

impl<T, U> Default for HashRing<T, U> {
    fn default() -> (r: Self)
        ensures
            r@ == Seq::<Node<T>>::empty(),
            r.wf(),
    {
        HashRing { ring: Vec::new(), phantom: PhantomData }
    }
}

impl<T: Identity, U: Identity> HashRing<T, U> {
    /// Create an empty ring.
    pub fn new() -> (r: HashRing<T, U>)
        ensures
            r@ == Seq::<Node<T>>::empty(),
            r.wf(),
    {
        Default::default()
    }

    /// The number of entries in the ring.
    pub fn len(&self) -> (n: usize)
        ensures
            n == self@.len(),
    {
        self.ring.len()
    }

    /// True if and only if the ring has no entries.
    pub fn is_empty(&self) -> (b: bool)
        ensures
            b <==> self@.len() == 0,
    {
        self.ring.len() == 0
    }

    /// Binary search for the first entry whose key is at least `h`.
    fn first_ge(ring: &Vec<Node<T>>, h: u64) -> (r: usize)
        requires
            sorted(ring@),
        ensures
            r as int == first_ge_spec(ring@, h),
    {
        let mut lo: usize = 0;
        let mut hi: usize = ring.len();
        while lo < hi
            invariant
                lo <= hi <= ring@.len(),
                sorted(ring@),
                forall|j: int| 0 <= j < lo ==> ring@[j].key < h,
                forall|j: int| hi <= j < ring@.len() ==> ring@[j].key >= h,
            decreases hi - lo,
        {
            let mid: usize = lo + (hi - lo) / 2;
            if ring[mid].key < h {
                proof {
                    assert forall|j: int| 0 <= j < mid + 1 implies ring@[j].key < h by {
                        assert(ring@[j].key <= ring@[mid as int].key);
                    }
                }
                lo = mid + 1;
            } else {
                hi = mid;
            }
        }
        proof {
            lemma_first_ge_unique(ring@, h, lo as int);
        }
        lo
    }

    /// Binary search for the first entry whose key exceeds `h`.
    fn first_gt(ring: &Vec<Node<T>>, h: u64) -> (r: usize)
        requires
            sorted(ring@),
        ensures
            r as int == first_gt_spec(ring@, h),
    {
        let mut lo: usize = 0;
        let mut hi: usize = ring.len();
        while lo < hi
            invariant
                lo <= hi <= ring@.len(),
                sorted(ring@),
                forall|j: int| 0 <= j < lo ==> ring@[j].key <= h,
                forall|j: int| hi <= j < ring@.len() ==> ring@[j].key > h,
            decreases hi - lo,
        {
            let mid: usize = lo + (hi - lo) / 2;
            if ring[mid].key <= h {
                proof {
                    assert forall|j: int| 0 <= j < mid + 1 implies ring@[j].key <= h by {
                        assert(ring@[j].key <= ring@[mid as int].key);
                    }
                }
                lo = mid + 1;
            } else {
                hi = mid;
            }
        }
        proof {
            lemma_first_gt_unique(ring@, h, lo as int);
        }
        lo
    }

    /// Add `node` to the ring, taking ownership of it.
    ///
    /// The node's identity is hashed and the entry placed so that the sorted
    /// order is kept. A node whose identity collides with an existing one is
    /// permitted: both entries coexist and both take part in lookup.
    pub fn add(&mut self, node: T)
        requires
            old(self).wf(),
        ensures
            final(self).wf(),
            final(self)@ == spec_add(
                old(self)@,
                (Node { key: hash_of(node.id()), node }),
            ),
            final(self)@.len() == old(self)@.len() + 1,
    {
        let s = node.identity();
        let key = hash_bytes(s.as_slice());
        let i = Self::first_gt(&self.ring, key);
        proof {
            lemma_first_gt_props(self.ring@, key);
            lemma_add_sorted(self.ring@, (Node { key, node }));
        }
        self.ring.insert(i, Node::new(key, node));
    }

    /// Remove the entry whose key equals the hash of `node`'s identity.
    ///
    /// Returns the removed node, or `None` when no entry has that key: a
    /// miss is a normal outcome, not an error. Removal is keyed purely by
    /// hash equality of identities, never by structural equality of node
    /// values. When several entries share the key, exactly one — the first —
    /// is removed.
    pub fn remove(&mut self, node: &T) -> (r: Option<T>)
        requires
            old(self).wf(),
        ensures
            final(self).wf(),
            r is Some <==> found(old(self)@, hash_of(node.id())),
            ({
                let h = hash_of(node.id());
                let i = first_ge_spec(old(self)@, h);
                if found(old(self)@, h) {
                    &&& r == Some(old(self)@[i].node)
                    &&& final(self)@ == old(self)@.remove(i)
                    &&& final(self)@.len() + 1 == old(self)@.len()
                } else {
                    final(self)@ == old(self)@
                }
            }),
    {
        let s = node.identity();
        let key = hash_bytes(s.as_slice());
        let i = Self::first_ge(&self.ring, key);
        proof {
            lemma_found_at_first_ge(self.ring@, key);
        }
        if i < self.ring.len() && self.ring[i].key == key {
            proof {
                lemma_remove_sorted(self.ring@, i as int);
            }
            let n = self.ring.remove(i);
            Some(n.node)
        } else {
            None
        }
    }

    /// Get the node responsible for `key`: the successor on the ring of the
    /// hash of `key`'s identity, wrapping around past the largest stored
    /// key. Returns `None` if and only if the ring is empty.
    ///
    /// The returned reference is valid until the next mutating operation.
    pub fn get(&self, key: &U) -> (r: Option<&T>)
        requires
            self.wf(),
        ensures
            r is Some <==> self@.len() > 0,
            self@.len() > 0 ==> (r matches Some(n) && *n == self@[succ_spec(
                self@,
                hash_of(key.id()),
            )].node),
    {
        if self.ring.len() == 0 {
            return None;
        }
        let s = key.identity();
        let k = hash_bytes(s.as_slice());
        proof {
            lemma_first_ge_props(self.ring@, k);
        }
        let i = Self::first_ge(&self.ring, k);
        let i: usize = if i == self.ring.len() {
            0
        } else {
            i
        };
        Some(&self.ring[i].node)
    }
}

} // verus!
