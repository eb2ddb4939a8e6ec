//! The ring's laws: statements that relate several operations, proved once
//! and for all over the spec-level model that the operations' contracts use.

use vstd::prelude::*;

use crate::ring::distinct_keys;
use crate::ring::first_ge_spec;
use crate::ring::first_gt_spec;
use crate::ring::found;
use crate::ring::lemma_first_ge_props;
use crate::ring::lemma_first_ge_unique;
use crate::ring::lemma_first_gt_props;
use crate::ring::lemma_remove_sorted;
use crate::ring::sorted;
use crate::ring::spec_add;
use crate::ring::succ_spec;
use crate::ring::Node;

verus! {

/// Determinism: two sorted rings holding the same multiset of entries, with
/// no key stored twice in either, are the same sequence, so every lookup
/// returns the same node from both — however the entries were added.
///
/// (When a key is stored twice with structurally different nodes, the order
/// of the tied entries may depend on insertion order, and a lookup landing
/// on the tie may answer from either; the distinctness hypothesis rules
/// that out, as callers that rely on placement must.)
pub proof fn lemma_determinism<T>(a: Seq<Node<T>>, b: Seq<Node<T>>)
    requires
        sorted(a),
        sorted(b),
        distinct_keys(a),
        distinct_keys(b),
        a.to_multiset() == b.to_multiset(),
    ensures
        a == b,
        forall|h: u64|
            #![trigger succ_spec(a, h)]
            a[succ_spec(a, h)].node == b[succ_spec(b, h)].node,
    decreases a.len(),
{
    a.to_multiset_ensures();
    b.to_multiset_ensures();
    if a.len() == 0 {
        assert(a =~= b);
    } else {
        assert(a.contains(a[0]));
        assert(b.to_multiset().count(a[0]) > 0);
        assert(b.contains(a[0]));
        let j = choose|j: int| 0 <= j < b.len() && b[j] == a[0];
        assert(b.contains(b[0]));
        assert(a.to_multiset().count(b[0]) > 0);
        assert(a.contains(b[0]));
        let i = choose|i: int| 0 <= i < a.len() && a[i] == b[0];
        assert(a[0].key <= a[i].key);
        assert(b[0].key <= b[j].key);
        assert(a[0].key == b[0].key);
        assert(j == 0) by {
            if j != 0 {
                assert(b[0].key != b[j].key);
            }
        }
        let at = a.drop_first();
        let bt = b.drop_first();
        assert(a.remove(0) =~= at);
        assert(b.remove(0) =~= bt);
        assert(at.to_multiset() =~= a.to_multiset().remove(a[0]));
        assert(bt.to_multiset() =~= b.to_multiset().remove(b[0]));
        assert(at.to_multiset() == bt.to_multiset());
        assert(sorted(at) && distinct_keys(at)) by {
            assert(forall|p: int| 0 <= p < at.len() ==> at[p] == a[p + 1]);
        }
        assert(sorted(bt) && distinct_keys(bt)) by {
            assert(forall|p: int| 0 <= p < bt.len() ==> bt[p] == b[p + 1]);
        }
        lemma_determinism(at, bt);
        assert forall|k: int| 0 <= k < a.len() implies a[k] == b[k] by {
            if k >= 1 {
                assert(at[k - 1] == bt[k - 1]);
            }
        }
        assert(a =~= b);
    }
}

/// Wrap-around: on a non-empty ring, a query hash past every stored key is
/// answered by the entry at index 0, which carries the minimum stored key.
pub proof fn lemma_wrap_around<T>(s: Seq<Node<T>>, h: u64)
    requires
        sorted(s),
        s.len() > 0,
        forall|i: int| 0 <= i < s.len() ==> s[i].key < h,
    ensures
        succ_spec(s, h) == 0,
        forall|i: int| 0 <= i < s.len() ==> s[0].key <= #[trigger] s[i].key,
{
    lemma_first_ge_props(s, h);
}

/// Minimal disruption: removing one entry changes the answer only for query
/// hashes that were routed to that entry. Every other query hash is served
/// by the same node before and after the removal.
pub proof fn lemma_removal_disruption<T>(s: Seq<Node<T>>, i: int, h: u64)
    requires
        sorted(s),
        0 <= i < s.len(),
        succ_spec(s, h) != i,
    ensures
        sorted(s.remove(i)),
        s.remove(i).len() > 0,
        s.remove(i)[succ_spec(s.remove(i), h)].node == s[succ_spec(s, h)].node,
{
    lemma_remove_sorted(s, i);
    lemma_first_ge_props(s, h);
    s.remove_ensures(i);
    let t = s.remove(i);
    let f = first_ge_spec(s, h);
    if f == s.len() {
        assert forall|j: int| 0 <= j < t.len() implies t[j].key < h by {
            if j < i {
                assert(t[j] == s[j]);
            } else {
                assert(t[j] == s[j + 1]);
            }
        }
        lemma_first_ge_unique(t, h, t.len() as int);
        assert(t[0] == s[0]);
    } else if f < i {
        assert forall|j: int| 0 <= j < f implies t[j].key < h by {
            assert(t[j] == s[j]);
        }
        assert(t[f] == s[f]);
        lemma_first_ge_unique(t, h, f);
    } else {
        assert forall|j: int| 0 <= j < f - 1 implies t[j].key < h by {
            if j < i {
                assert(t[j] == s[j]);
            } else {
                assert(t[j] == s[j + 1]);
            }
        }
        assert(t[f - 1] == s[f]);
        lemma_first_ge_unique(t, h, f - 1);
    }
}

/// Round trip: adding a node whose key is not yet on the ring and then
/// removing by that key succeeds, hands back exactly the added entry, and
/// leaves the ring — and so its length — as it was.
///
/// (If the key were already stored, the removal would hand back the earlier
/// entry with that key instead: removal is by hash of identity alone.)
pub proof fn lemma_round_trip<T>(s: Seq<Node<T>>, e: Node<T>)
    requires
        sorted(s),
        !found(s, e.key),
    ensures
        ({
            let s1 = spec_add(s, e);
            let i = first_ge_spec(s1, e.key);
            &&& found(s1, e.key)
            &&& s1[i] == e
            &&& s1.remove(i) == s
        }),
{
    let p = first_gt_spec(s, e.key);
    lemma_first_gt_props(s, e.key);
    s.insert_ensures(p, e);
    let s1 = spec_add(s, e);
    assert(s1[p] == e);
    assert forall|j: int| 0 <= j < p implies s1[j].key < e.key by {
        assert(s1[j] == s[j]);
        if s[j].key == e.key {
            assert(found(s, e.key));
        }
    }
    lemma_first_ge_unique(s1, e.key, p);
    assert(found(s1, e.key)) by {
        assert(0 <= p < s1.len() && s1[p].key == e.key);
    }
    s1.remove_ensures(p);
    assert forall|k: int| 0 <= k < s.len() implies s1.remove(p)[k] == s[k] by {
        if k < p {
            assert(s1.remove(p)[k] == s1[k]);
        } else {
            assert(s1.remove(p)[k] == s1[k + 1]);
        }
    }
    assert(s1.remove(p) =~= s);
}

/// Duplicate tolerance: adding the same node twice to an empty ring yields
/// two entries; the first two removals by its key both succeed and both
/// hand back that node, and a third removal finds nothing.
pub proof fn lemma_duplicate_tolerance<T>(e: Node<T>)
    ensures
        ({
            let s0 = Seq::<Node<T>>::empty();
            let s1 = spec_add(s0, e);
            let s2 = spec_add(s1, e);
            let i2 = first_ge_spec(s2, e.key);
            let s3 = s2.remove(i2);
            let i3 = first_ge_spec(s3, e.key);
            let s4 = s3.remove(i3);
            &&& s2.len() == 2
            &&& found(s2, e.key) && s2[i2] == e
            &&& found(s3, e.key) && s3[i3] == e
            &&& s4.len() == 0 && !found(s4, e.key)
        }),
{
    let s0 = Seq::<Node<T>>::empty();
    assert(first_gt_spec(s0, e.key) == 0);
    s0.insert_ensures(0, e);
    let s1 = spec_add(s0, e);
    assert(s1.drop_first() =~= s0);
    assert(first_gt_spec(s1, e.key) == 1);
    s1.insert_ensures(1, e);
    let s2 = spec_add(s1, e);
    assert(s2.len() == 2 && s2[0] == e && s2[1] == e);
    assert(first_ge_spec(s2, e.key) == 0);
    assert(found(s2, e.key)) by {
        assert(s2[0].key == e.key);
    }
    s2.remove_ensures(0);
    let s3 = s2.remove(0);
    assert(s3.len() == 1 && s3[0] == e);
    assert(first_ge_spec(s3, e.key) == 0);
    assert(found(s3, e.key)) by {
        assert(s3[0].key == e.key);
    }
    s3.remove_ensures(0);
    let s4 = s3.remove(0);
    assert(s4.len() == 0);
}

} // verus!
