use haze::hashring::HashRing;
use haze::hex::Hex;
use haze::ring::{RingKey, VirtualNodeId};
use sha2::Digest;

fn point(data: &[u8]) -> u128 {
    let d = sha2::Sha256::digest(data);
    u128::from_be_bytes(d[..16].try_into().unwrap())
}

#[test]
fn hex_is_lower_case_two_digits_per_byte() {
    assert_eq!(Hex(vec![0x00, 0x0f, 0xa5, 0xff]).to_hex_string(), "000fa5ff");
    assert_eq!(Hex(vec![]).to_hex_string(), "");
}

#[test]
fn digest_string_is_hex_of_digest() {
    let v = VirtualNodeId("n1/00".to_string());
    let expected: String = sha2::Sha256::digest(b"n1/00").iter().map(|b| format!("{:02x}", b)).collect();
    assert_eq!(v.as_sha256_string(), expected);
    assert_eq!(v.as_sha256_string().len(), 64);
}

#[test]
fn member_ring_looks_up_from_the_key() {
    let names = ["alpha", "beta", "gamma", "delta"];
    let ring = HashRing::from_members(names.iter().map(|n| (n.to_string(), n.to_string())).collect()).unwrap();
    let mut sorted: Vec<(u128, &str)> = names.iter().map(|n| (point(n.as_bytes()), *n)).collect();
    sorted.sort();
    for i in 0..50 {
        let key = format!("key{i}");
        let at = point(key.as_bytes());
        let start = sorted.iter().position(|(p, _)| *p >= at).unwrap_or(sorted.len());
        let expected: Vec<&str> = (0..sorted.len()).map(|j| sorted[(start + j) % sorted.len()].1).collect();
        let got: Vec<&str> = ring.lookup(key.as_bytes()).into_iter().map(|s| s.as_str()).collect();
        assert_eq!(got, expected);
    }
}

#[test]
fn member_ring_rejects_a_second_member_at_a_point() {
    let mut ring: HashRing<u32> = HashRing::new();
    assert!(ring.lookup(b"x").is_empty());
    assert!(ring.add_member("a", 1));
    assert!(!ring.add_member("a", 2));
    assert_eq!(ring.lookup(b"x"), vec![&1]);
    assert!(HashRing::from_members(vec![("a".to_string(), 1), ("a".to_string(), 2)]).is_none());
}
