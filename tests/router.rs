use haze::config::{NetworkId, RingConfig, RingUpdateConfig};
use haze::ring::{HashRing, VirtualNodeId};
use haze::router::{
    Action, CompositeKey, Location, Plan, ReadMerge, RouteError, action, choose_peer, combine_reads,
    forward_ttl, peer_candidates, plan_request, random_peer,
};

fn vn(s: &str) -> VirtualNodeId {
    VirtualNodeId(s.to_string())
}

fn ni(s: &str) -> NetworkId {
    NetworkId(s.to_string())
}

fn ck(k: &str) -> CompositeKey {
    CompositeKey { scope: "s".to_string(), key: k.to_string() }
}

fn two_node_config() -> RingConfig {
    let mut cf = RingConfig::empty();
    for i in 0..4 {
        cf.insert_node(vn(&format!("a/{i:02x}")), ni("a"));
        cf.insert_node(vn(&format!("b/{i:02x}")), ni("b"));
    }
    cf
}

fn owner_of(cf: &RingConfig, ring: &HashRing, key: &CompositeKey) -> NetworkId {
    let v = ring.cursor(key).get();
    cf.network_id(v).unwrap().clone()
}

#[test]
fn owner_stores_others_forward_to_owner() {
    let cf = two_node_config();
    let ring = HashRing::from_config(&cf);
    for i in 0..50 {
        let key = ck(&format!("{i}"));
        let owner = owner_of(&cf, &ring, &key);
        let other = if owner == ni("a") { ni("b") } else { ni("a") };
        assert!(matches!(action(&key, &cf, &ring, &owner), Ok(Action::Store)));
        match action(&key, &cf, &ring, &other) {
            Ok(Action::Forward(to)) => assert_eq!(to, owner),
            _ => panic!("expected a forward"),
        }
        match action(&key, &cf, &ring, &ni("c")) {
            Ok(Action::Forward(to)) => assert_eq!(to, owner),
            _ => panic!("expected a forward"),
        }
    }
}

#[test]
fn addition_in_progress_splits_the_range() {
    let cf = two_node_config();
    let ring = HashRing::from_config(&cf);
    let newcomer = vn("c/00");
    let old_vn = ring.cursor(&newcomer).get().clone();
    let old_owner = cf.network_id(&old_vn).unwrap().clone();
    let mut adding = cf.clone();
    adding.update = Some(RingUpdateConfig::ToAdd { vn: newcomer.clone(), ni: ni("c") });
    let mut seen_adding = false;
    for i in 0..300 {
        let key = ck(&format!("{i}"));
        if ring.cursor(&key).get() == &old_vn {
            match action(&key, &adding, &ring, &old_owner) {
                Ok(Action::StoreAdding(to)) => {
                    assert_eq!(to, ni("c"));
                    seen_adding = true;
                }
                _ => panic!("expected StoreAdding"),
            }
        } else if owner_of(&cf, &ring, &key) == old_owner {
            assert!(matches!(action(&key, &adding, &ring, &old_owner), Ok(Action::Store)));
        }
    }
    assert!(seen_adding);
}

#[test]
fn removal_in_progress_is_not_routed() {
    let cf = two_node_config();
    let ring = HashRing::from_config(&cf);
    let key = ck("x");
    let owner = owner_of(&cf, &ring, &key);
    let mut removing = cf.clone();
    removing.update = Some(RingUpdateConfig::ToRemove { vn: vn("a/00"), ni: ni("a") });
    assert!(matches!(action(&key, &removing, &ring, &owner), Err(RouteError::UnsupportedUpdate)));
}

#[test]
fn ring_without_owner_is_corrupt() {
    let cf = two_node_config();
    let ring = HashRing::from_nodes(vec![vn("zzz")]);
    assert!(matches!(action(&ck("x"), &cf, &ring, &ni("a")), Err(RouteError::RingCorrupt)));
    let empty = HashRing::from_nodes(vec![]);
    assert!(matches!(action(&ck("x"), &cf, &empty, &ni("a")), Err(RouteError::RingCorrupt)));
}

#[test]
fn ttl_zero_expires() {
    assert_eq!(forward_ttl(0), Err(RouteError::TtlExpired));
    assert_eq!(forward_ttl(8), Ok(7));
    let cf = two_node_config();
    let ring = HashRing::from_config(&cf);
    let peers = vec![Location::Stable("b".to_string())];
    for who in ["a", "b"] {
        let r = plan_request(0, &ck("k"), Some((&cf, &ring)), &ni(who), &peers);
        assert!(matches!(r, Err(RouteError::TtlExpired)));
    }
    assert!(matches!(plan_request(0, &ck("k"), None, &ni("a"), &peers), Err(RouteError::TtlExpired)));
}

#[test]
fn plan_forwards_with_one_less_ttl() {
    let cf = two_node_config();
    let ring = HashRing::from_config(&cf);
    let key = ck("k");
    let owner = owner_of(&cf, &ring, &key);
    let other = if owner == ni("a") { ni("b") } else { ni("a") };
    match plan_request(5, &key, Some((&cf, &ring)), &other, &vec![]) {
        Ok(Plan::Forward(to, ttl)) => {
            assert_eq!(to, owner);
            assert_eq!(ttl, 4);
        }
        _ => panic!("expected a forward"),
    }
    assert!(matches!(plan_request(5, &key, Some((&cf, &ring)), &owner, &vec![]), Ok(Plan::Store)));
}

#[test]
fn no_ring_forwards_to_a_peer() {
    let me = ni("a");
    let locs = vec![
        Location::Stable("a".to_string()),
        Location::Ephemeral("e".to_string()),
        Location::Stable("b".to_string()),
        Location::Stable("c".to_string()),
    ];
    let cands = peer_candidates(&me, &locs);
    assert_eq!(cands, vec![ni("b"), ni("c")]);
    for _ in 0..20 {
        let p = random_peer(&me, &locs).unwrap();
        assert!(p == ni("b") || p == ni("c"));
        match plan_request(3, &ck("k"), None, &me, &locs) {
            Ok(Plan::Forward(to, ttl)) => {
                assert!(to == ni("b") || to == ni("c"));
                assert_eq!(ttl, 2);
            }
            _ => panic!("expected a forward"),
        }
    }
}

#[test]
fn no_ring_and_no_peers_fails() {
    let me = ni("a");
    let locs = vec![Location::Stable("a".to_string()), Location::Ephemeral("e".to_string())];
    assert!(peer_candidates(&me, &locs).is_empty());
    assert_eq!(random_peer(&me, &locs), Err(RouteError::NoPeers));
    assert!(matches!(plan_request(3, &ck("k"), None, &me, &locs), Err(RouteError::NoPeers)));
}

#[test]
fn choose_peer_counts_modulo() {
    assert_eq!(choose_peer(vec![ni("x"), ni("y")], 3), Ok(ni("y")));
    assert_eq!(choose_peer(vec![ni("x"), ni("y")], 0), Ok(ni("x")));
    assert_eq!(choose_peer(vec![], 0), Err(RouteError::NoPeers));
}

#[test]
fn reads_combine_by_presence() {
    assert!(matches!(combine_reads(None, None), ReadMerge::Done(None)));
    assert!(matches!(combine_reads(Some(vec![1]), None), ReadMerge::Done(Some(v)) if v == vec![1]));
    assert!(matches!(combine_reads(None, Some(vec![2])), ReadMerge::Done(Some(v)) if v == vec![2]));
    assert!(matches!(combine_reads(Some(vec![1]), Some(vec![2])), ReadMerge::Merge(a, b) if a == vec![1] && b == vec![2]));
}

#[test]
fn steady_state_every_node_forwards_to_the_same_owner() {
    let cf = two_node_config();
    let ring = HashRing::from_config(&cf);
    for i in 0..50 {
        let key = ck(&format!("q{i}"));
        let mut finals = Vec::new();
        for start in ["a", "b", "c", "d"] {
            let mut at = ni(start);
            let mut ttl = 8u32;
            loop {
                match plan_request(ttl, &key, Some((&cf, &ring)), &at, &vec![]) {
                    Ok(Plan::Forward(to, t)) => {
                        at = to;
                        ttl = t;
                    }
                    Ok(Plan::Store) => break,
                    _ => panic!("unexpected plan"),
                }
            }
            finals.push(at);
        }
        assert!(finals.iter().all(|f| f == &finals[0]));
        assert_eq!(finals[0], owner_of(&cf, &ring, &key));
    }
}

#[test]
fn misrouted_ring_ends_in_ttl_expiry() {
    // Each node believes the other one owns every key.
    let mut at_a = RingConfig::empty();
    at_a.insert_node(vn("v"), ni("b"));
    let mut at_b = RingConfig::empty();
    at_b.insert_node(vn("v"), ni("a"));
    let ring = HashRing::from_nodes(vec![vn("v")]);
    let key = ck("k");
    let mut at = ni("a");
    let mut ttl = 8u32;
    let mut hops = 0;
    let err = loop {
        let cf = if at == ni("a") { &at_a } else { &at_b };
        match plan_request(ttl, &key, Some((cf, &ring)), &at, &vec![]) {
            Ok(Plan::Forward(to, t)) => {
                at = to;
                ttl = t;
                hops += 1;
            }
            Err(e) => break e,
            _ => panic!("unexpected plan"),
        }
    };
    assert_eq!(err, RouteError::TtlExpired);
    assert_eq!(hops, 8);
}
