use hashring::HashRing;
use hashring::Identity;
use hashring::VNode;

fn key(s: &str) -> String {
    s.to_string()
}

#[test]
fn add_and_remove_nodes() {
    let mut ring: HashRing<VNode, String> = HashRing::new();

    assert_eq!(ring.len(), 0);
    assert!(ring.is_empty());

    let vnode1 = VNode::new(127, 0, 0, 1, 1024, 1);
    let vnode2 = VNode::new(127, 0, 0, 1, 1024, 2);
    let vnode3 = VNode::new(127, 0, 0, 2, 1024, 1);

    ring.add(vnode1);
    ring.add(vnode2);
    ring.add(vnode3);
    assert_eq!(ring.len(), 3);
    assert!(!ring.is_empty());

    assert_eq!(ring.remove(&vnode2).unwrap(), vnode2);
    assert_eq!(ring.len(), 2);

    let vnode4 = VNode::new(127, 0, 0, 2, 1024, 2);
    let vnode5 = VNode::new(127, 0, 0, 2, 1024, 3);
    let vnode6 = VNode::new(127, 0, 0, 3, 1024, 1);

    ring.add(vnode4);
    ring.add(vnode5);
    ring.add(vnode6);

    assert_eq!(ring.remove(&vnode1).unwrap(), vnode1);
    assert_eq!(ring.remove(&vnode3).unwrap(), vnode3);
    assert_eq!(ring.remove(&vnode6).unwrap(), vnode6);
    assert_eq!(ring.len(), 2);
}

#[test]
fn get_nodes() {
    let mut ring: HashRing<VNode, String> = HashRing::new();

    assert_eq!(ring.get(&key("foo")), None);

    let vnode1 = VNode::new(127, 0, 0, 1, 1024, 1);
    let vnode2 = VNode::new(127, 0, 0, 1, 1024, 2);
    let vnode3 = VNode::new(127, 0, 0, 2, 1024, 1);
    let vnode4 = VNode::new(127, 0, 0, 2, 1024, 2);
    let vnode5 = VNode::new(127, 0, 0, 2, 1024, 3);
    let vnode6 = VNode::new(127, 0, 0, 3, 1024, 1);

    ring.add(vnode1);
    ring.add(vnode2);
    ring.add(vnode3);
    ring.add(vnode4);
    ring.add(vnode5);
    ring.add(vnode6);

    assert_eq!(ring.get(&key("foo")), Some(&vnode1));
    assert_eq!(ring.get(&key("bar")), Some(&vnode2));
    assert_eq!(ring.get(&key("baz")), Some(&vnode1));

    assert_eq!(ring.get(&key("abc")), Some(&vnode6));
    assert_eq!(ring.get(&key("def")), Some(&vnode3));
    assert_eq!(ring.get(&key("ghi")), Some(&vnode3));

    assert_eq!(ring.get(&key("cat")), Some(&vnode5));
    assert_eq!(ring.get(&key("dog")), Some(&vnode6));
    assert_eq!(ring.get(&key("bird")), Some(&vnode2));
}

// The wire-level hash rule: little-endian u64 of the first 8 bytes of the
// MD5 digest. MD5(b"") = d41d8cd98f00b204...; MD5(b"abc") = 900150983cd24fb0...
#[test]
fn hash_rule_exact_values() {
    assert_eq!(hashring::hash_bytes(b""), 0x04b2008fd98c1dd4);
    assert_eq!(hashring::hash_bytes(b"abc"), 0xb04fd23c98500190);
}

#[test]
fn vnode_identity_rendering() {
    let v = VNode::new(127, 0, 0, 1, 1024, 2);
    assert_eq!(v.identity(), b"127.0.0.1:1024|2".to_vec());
    let w = VNode::new(10, 200, 0, 34, 8080, 17);
    assert_eq!(w.identity(), b"10.200.0.34:8080|17".to_vec());
    let s = key("foo");
    assert_eq!(s.identity(), b"foo".to_vec());
}

#[test]
fn emptiness() {
    let mut ring: HashRing<VNode, String> = HashRing::new();
    assert!(ring.is_empty());
    assert_eq!(ring.len(), 0);
    assert_eq!(ring.get(&key("foo")), None);
    assert_eq!(ring.get(&key("")), None);

    let v = VNode::new(1, 2, 3, 4, 5, 6);
    ring.add(v);
    assert!(!ring.is_empty());
    assert!(ring.get(&key("anything")).is_some());

    ring.remove(&v).unwrap();
    assert!(ring.is_empty());
    assert_eq!(ring.len(), 0);
    assert_eq!(ring.get(&key("anything")), None);
}

#[test]
fn size_accounting() {
    let mut ring: HashRing<VNode, String> = HashRing::new();
    let mut successful: usize = 0;
    for id in 1..=8u64 {
        ring.add(VNode::new(192, 168, 0, 1, 80, id));
        successful += 1;
    }
    assert_eq!(ring.len(), successful);
    // A miss does not change the length.
    let stranger = VNode::new(8, 8, 8, 8, 53, 1);
    assert!(ring.remove(&stranger).is_none());
    assert_eq!(ring.len(), successful);
    for id in 1..=3u64 {
        assert!(ring.remove(&VNode::new(192, 168, 0, 1, 80, id)).is_some());
        successful -= 1;
    }
    assert_eq!(ring.len(), successful);
    assert_eq!(ring.len(), 5);
}

#[test]
fn round_trip() {
    let mut ring: HashRing<VNode, String> = HashRing::new();
    for id in 1..=5u64 {
        ring.add(VNode::new(10, 0, 0, 9, 6000, id));
    }
    let x = VNode::new(172, 16, 0, 1, 7000, 42);
    ring.add(x);
    assert_eq!(ring.len(), 6);
    assert_eq!(ring.remove(&x), Some(x));
    assert_eq!(ring.len(), 5);
}

#[test]
fn duplicate_tolerance() {
    let mut ring: HashRing<VNode, String> = HashRing::new();
    let x = VNode::new(127, 0, 0, 1, 1024, 1);
    ring.add(x);
    ring.add(x);
    assert_eq!(ring.len(), 2);
    assert_eq!(ring.remove(&x), Some(x));
    assert_eq!(ring.remove(&x), Some(x));
    assert_eq!(ring.remove(&x), None);
    assert!(ring.is_empty());
}

// Two rings populated with the same nodes in different orders answer every
// key identically.
#[test]
fn determinism_across_insertion_orders() {
    let nodes = [
        VNode::new(127, 0, 0, 1, 1024, 1),
        VNode::new(127, 0, 0, 1, 1024, 2),
        VNode::new(127, 0, 0, 2, 1024, 1),
        VNode::new(127, 0, 0, 2, 1024, 2),
        VNode::new(127, 0, 0, 2, 1024, 3),
        VNode::new(127, 0, 0, 3, 1024, 1),
    ];
    let mut a: HashRing<VNode, String> = HashRing::new();
    let mut b: HashRing<VNode, String> = HashRing::new();
    for v in nodes {
        a.add(v);
    }
    for v in nodes.into_iter().rev() {
        b.add(v);
    }
    for k in ["foo", "bar", "baz", "abc", "def", "ghi", "cat", "dog", "bird", ""] {
        assert_eq!(a.get(&key(k)), b.get(&key(k)));
    }
}

// Removing one of N nodes relocates only the keys that were served by it:
// every other key keeps its node, and about M/N of M keys move.
#[test]
fn minimal_disruption() {
    let mut ring: HashRing<VNode, String> = HashRing::new();
    let mut nodes = Vec::new();
    for id in 0..10u64 {
        let v = VNode::new(10, 1, (id % 256) as u8, 7, 9000, id);
        nodes.push(v);
        ring.add(v);
    }
    let keys: Vec<String> = (0..100).map(|i| format!("request-{}", i)).collect();
    let before: Vec<VNode> = keys.iter().map(|k| *ring.get(k).unwrap()).collect();

    let removed = nodes[3];
    assert_eq!(ring.remove(&removed), Some(removed));

    let mut changed: usize = 0;
    for (k, old) in keys.iter().zip(before.iter()) {
        let new = *ring.get(k).unwrap();
        if *old == removed {
            changed += 1;
            assert_ne!(new, removed);
        } else {
            // Keys not served by the removed node keep their node.
            assert_eq!(new, *old);
        }
    }
    // Statistically about M/N = 10 of the 100 keys move; allow a wide margin.
    assert!(changed <= 40, "too many keys moved: {}", changed);
}

// After the full insertion of the six nodes, removing V2 succeeds and "bar"
// is no longer served by it.
#[test]
fn remove_then_get() {
    let mut ring: HashRing<VNode, String> = HashRing::new();
    let vnode1 = VNode::new(127, 0, 0, 1, 1024, 1);
    let vnode2 = VNode::new(127, 0, 0, 1, 1024, 2);
    let vnode3 = VNode::new(127, 0, 0, 2, 1024, 1);
    let vnode4 = VNode::new(127, 0, 0, 2, 1024, 2);
    let vnode5 = VNode::new(127, 0, 0, 2, 1024, 3);
    let vnode6 = VNode::new(127, 0, 0, 3, 1024, 1);
    ring.add(vnode1);
    ring.add(vnode2);
    ring.add(vnode3);
    ring.add(vnode4);
    ring.add(vnode5);
    ring.add(vnode6);
    assert_eq!(ring.len(), 6);

    assert_eq!(ring.remove(&vnode2), Some(vnode2));
    assert_ne!(ring.get(&key("bar")), Some(&vnode2));

    assert_eq!(ring.remove(&vnode1), Some(vnode1));
    assert_eq!(ring.remove(&vnode3), Some(vnode3));
    assert_eq!(ring.remove(&vnode6), Some(vnode6));
    assert_eq!(ring.len(), 2);
}

// Six inserts give length 6; removing V1, V3 and V6 leaves 3.
#[test]
fn len_after_inserts_and_removals() {
    let mut ring: HashRing<VNode, String> = HashRing::new();
    let vnode1 = VNode::new(127, 0, 0, 1, 1024, 1);
    let vnode2 = VNode::new(127, 0, 0, 1, 1024, 2);
    let vnode3 = VNode::new(127, 0, 0, 2, 1024, 1);
    let vnode4 = VNode::new(127, 0, 0, 2, 1024, 2);
    let vnode5 = VNode::new(127, 0, 0, 2, 1024, 3);
    let vnode6 = VNode::new(127, 0, 0, 3, 1024, 1);
    ring.add(vnode1);
    ring.add(vnode2);
    ring.add(vnode3);
    ring.add(vnode4);
    ring.add(vnode5);
    ring.add(vnode6);
    assert_eq!(ring.len(), 6);
    ring.remove(&vnode1).unwrap();
    ring.remove(&vnode3).unwrap();
    ring.remove(&vnode6).unwrap();
    assert_eq!(ring.len(), 3);
    assert_eq!(ring.get(&key("bar")), Some(&vnode2));
}
