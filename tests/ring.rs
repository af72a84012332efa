use haze::ring::{HashRing, RingKey, VirtualNodeId};
use haze::router::CompositeKey;
use sha2::Digest;

fn vn(s: &str) -> VirtualNodeId {
    VirtualNodeId(s.to_string())
}

fn digest(data: &[u8]) -> Vec<u8> {
    sha2::Sha256::digest(data).to_vec()
}

fn key_digest(scope: &str, key: &str) -> Vec<u8> {
    digest(format!("{}\0{}", scope, key).as_bytes())
}

/// The owner of a digest, computed directly: the largest (digest, name) at
/// or below it, or the largest of all when every slot lies above it.
fn expected_owner(names: &[&str], h: &[u8]) -> String {
    let mut slots: Vec<(Vec<u8>, String)> =
        names.iter().map(|n| (digest(n.as_bytes()), n.to_string())).collect();
    slots.sort();
    let below: Vec<&(Vec<u8>, String)> = slots.iter().filter(|s| s.0.as_slice() <= h).collect();
    match below.last() {
        Some(s) => s.1.clone(),
        None => slots.last().unwrap().1.clone(),
    }
}

const NAMES: [&str; 6] = ["n1/00", "n1/01", "n2/00", "n2/01", "n3/00", "n3/01"];

#[test]
fn digest_is_sha256_of_name() {
    let v = vn("n1/00");
    assert_eq!(v.as_sha256(), digest(b"n1/00"));
    let ck = CompositeKey { scope: "s".to_string(), key: "k".to_string() };
    assert_eq!(ck.as_sha256(), digest(b"s\0k"));
    assert_ne!(ck.as_sha256(), digest(b"sk"));
}

#[test]
fn cursor_matches_direct_computation() {
    let ring = HashRing::from_nodes(NAMES.iter().map(|n| vn(n)).collect());
    assert_eq!(ring.len(), 6);
    for i in 0..200 {
        let key = format!("key-{i}");
        let ck = CompositeKey { scope: "s".to_string(), key: key.clone() };
        let got = ring.cursor(&ck).get().0.clone();
        assert_eq!(got, expected_owner(&NAMES, &key_digest("s", &key)));
    }
}

#[test]
fn cursor_depends_only_on_the_set_of_nodes() {
    let a = HashRing::from_nodes(NAMES.iter().map(|n| vn(n)).collect());
    let mut rev: Vec<VirtualNodeId> = NAMES.iter().rev().map(|n| vn(n)).collect();
    rev.push(vn("n2/00"));
    let b = HashRing::from_nodes(rev);
    for i in 0..100 {
        let ck = CompositeKey { scope: "scope".to_string(), key: format!("{i}") };
        assert_eq!(a.cursor(&ck).get(), b.cursor(&ck).get());
    }
}

#[test]
fn key_below_every_slot_wraps_to_the_last_slot() {
    let ring = HashRing::from_nodes(NAMES.iter().map(|n| vn(n)).collect());
    let mut slots: Vec<(Vec<u8>, String)> =
        NAMES.iter().map(|n| (digest(n.as_bytes()), n.to_string())).collect();
    slots.sort();
    let smallest = slots[0].0.clone();
    let largest = slots.last().unwrap().1.clone();
    let mut found = false;
    for i in 0..5000 {
        let key = format!("k{i}");
        if key_digest("w", &key) < smallest {
            let ck = CompositeKey { scope: "w".to_string(), key };
            assert_eq!(ring.cursor(&ck).get().0, largest);
            found = true;
        }
    }
    assert!(found);
}

#[test]
fn node_lies_in_its_own_range() {
    let ring = HashRing::from_nodes(NAMES.iter().map(|n| vn(n)).collect());
    for n in NAMES.iter() {
        let v = vn(n);
        assert_eq!(ring.cursor(&v).get(), &v);
        assert!(ring.range(&v).contains(&v));
        assert_eq!(ring.range(&v).start(), &v);
    }
}

#[test]
fn single_slot_ring_range_is_empty() {
    let ring = HashRing::from_nodes(vec![vn("only")]);
    let v = vn("only");
    assert_eq!(ring.cursor(&v).get(), &v);
    assert!(!ring.range(&v).contains(&v));
}

#[test]
fn exactly_one_range_holds_each_key() {
    let ring = HashRing::from_nodes(NAMES.iter().map(|n| vn(n)).collect());
    for i in 0..100 {
        let ck = CompositeKey { scope: "x".to_string(), key: format!("{i}") };
        let start = ring.cursor(&vn("n1/00"));
        let mut c = start.next().prev();
        let mut holders = 0;
        let mut owner = None;
        for _ in 0..ring.len() {
            if c.range().contains(&ck) {
                holders += 1;
                owner = Some(c.get().clone());
            }
            c = c.next();
        }
        assert_eq!(holders, 1);
        assert_eq!(owner.as_ref(), Some(ring.cursor(&ck).get()));
    }
}

#[test]
fn next_and_prev_are_inverse() {
    let ring = HashRing::from_nodes(NAMES.iter().map(|n| vn(n)).collect());
    for n in NAMES.iter() {
        let c = ring.cursor(&vn(n));
        assert_eq!(c.next().prev().get(), c.get());
        assert_eq!(c.prev().next().get(), c.get());
        assert_ne!(c.next().get(), c.get());
    }
    let mut c = ring.cursor(&vn("n1/00"));
    let first = c.get().clone();
    for _ in 0..ring.len() {
        c = c.next();
    }
    assert_eq!(c.get(), &first);
}

#[test]
fn trim_start_keeps_the_end() {
    let ring = HashRing::from_nodes(vec![vn("a"), vn("b"), vn("c")]);
    let newcomer = vn("d");
    let range = ring.range(&newcomer);
    let end = ring.cursor(&newcomer).next().get().clone();
    let trimmed = range.try_trim_start(newcomer.clone()).unwrap();
    assert_eq!(trimmed.start(), &newcomer);
    assert!(trimmed.contains(&newcomer));
    assert!(!trimmed.contains(&end));
    let outside = ring.cursor(&newcomer).next().get().clone();
    assert!(range.try_trim_start(outside).is_none());
}
