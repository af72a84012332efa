use std::collections::{BTreeMap, HashSet};

use haze::config::{NetworkId, RingConfig, RingUpdateConfig};
use haze::controller::{ControlAction, Controller, DesiredConfig};
use haze::crdt::{Crdt, Max, Version};
use haze::ring::HashRing;
use haze::router::{CompositeKey, Plan, RouteError, plan_request};
use haze::storage::drain_range;

const TTL: u32 = 8;

/// One node of an in-memory cluster: its ring and its stored values.
struct Node<V> {
    ring: Option<(RingConfig, HashRing)>,
    store: BTreeMap<(String, String), V>,
}

struct Cluster<V> {
    nodes: BTreeMap<String, Node<V>>,
    ctl: Controller,
}

fn ni(s: &str) -> NetworkId {
    NetworkId(s.to_string())
}

impl<V: Crdt + Clone> Cluster<V> {
    fn new(names: &[&str]) -> Self {
        let mut c = Cluster { nodes: BTreeMap::new(), ctl: Controller::new() };
        for n in names {
            c.add_node(n);
        }
        c
    }

    fn add_node(&mut self, name: &str) {
        self.nodes.insert(name.to_string(), Node { ring: None, store: BTreeMap::new() });
    }

    fn set_ring(&mut self, at: &NetworkId, cf: RingConfig) {
        let ring = HashRing::from_config(&cf);
        self.nodes.get_mut(&at.0).unwrap().ring = Some((cf, ring));
    }

    fn put_here(&mut self, at: &NetworkId, scope: &str, key: &str, v: V) -> V {
        let store = &mut self.nodes.get_mut(&at.0).unwrap().store;
        let k = (scope.to_string(), key.to_string());
        let merged = match store.remove(&k) {
            Some(old) => old.merge(v),
            None => v,
        };
        store.insert(k, merged.clone());
        merged
    }

    fn get_here(&self, at: &NetworkId, scope: &str, key: &str) -> Option<V> {
        self.nodes[&at.0].store.get(&(scope.to_string(), key.to_string())).cloned()
    }

    fn plan(&self, at: &NetworkId, ttl: u32, scope: &str, key: &str) -> Result<Plan, RouteError> {
        let ck = CompositeKey { scope: scope.to_string(), key: key.to_string() };
        let node = &self.nodes[&at.0];
        match &node.ring {
            Some((cf, ring)) => plan_request(ttl, &ck, Some((cf, ring)), at, &vec![]),
            None => Err(RouteError::NoPeers),
        }
    }

    fn put(&mut self, at: &str, scope: &str, key: &str, v: V) -> Result<V, RouteError> {
        let mut at = ni(at);
        let mut ttl = TTL;
        loop {
            match self.plan(&at, ttl, scope, key)? {
                Plan::Forward(to, t) => {
                    at = to;
                    ttl = t;
                }
                Plan::StoreAdding(to) => return Ok(self.put_here(&to, scope, key, v)),
                Plan::Store => return Ok(self.put_here(&at, scope, key, v)),
            }
        }
    }

    fn get(&self, at: &str, scope: &str, key: &str) -> Result<Option<V>, RouteError> {
        let mut at = ni(at);
        let mut ttl = TTL;
        loop {
            match self.plan(&at, ttl, scope, key)? {
                Plan::Forward(to, t) => {
                    at = to;
                    ttl = t;
                }
                Plan::Store => return Ok(self.get_here(&at, scope, key)),
                Plan::StoreAdding(to) => {
                    let local = self.get_here(&at, scope, key);
                    let remote = self.get_here(&to, scope, key);
                    return Ok(match (local, remote) {
                        (Some(a), Some(b)) => Some(a.merge(b)),
                        (a, None) => a,
                        (None, b) => b,
                    });
                }
            }
        }
    }

    /// Moves the keys of the range being added from `from` to `to`.
    fn drain(&mut self, from: &NetworkId, vn: &haze::ring::VirtualNodeId, to: &NetworkId) {
        let range = {
            let (_, ring) = self.nodes[&from.0].ring.as_ref().unwrap();
            drain_range(ring, vn).unwrap()
        };
        let keys: Vec<(String, String)> = self.nodes[&from.0].store.keys().cloned().collect();
        for (scope, key) in keys {
            let ck = CompositeKey { scope: scope.clone(), key: key.clone() };
            if range.contains(&ck) {
                let v = self.nodes.get_mut(&from.0).unwrap().store.remove(&(scope.clone(), key.clone())).unwrap();
                self.put_here(to, &scope, &key, v);
            }
        }
    }

    /// One controller round; the drain of an addition runs when it begins.
    fn reconcile_once(&mut self) -> bool {
        let names: Vec<NetworkId> = self.nodes.keys().map(|n| ni(n)).collect();
        let desired = DesiredConfig::from_nodes(names);
        for router in self.ctl.routers_to_fetch(&desired) {
            let ring = self.nodes[&router.0].ring.as_ref().map(|(cf, _)| cf.clone());
            self.ctl.record_fetched(&router, ring);
        }
        match self.ctl.action(&desired).ok().unwrap() {
            ControlAction::Nothing => false,
            ControlAction::BootstrapAll => {
                let cf = desired.as_ring_config();
                for n in desired.network_ids() {
                    self.set_ring(&n, cf.clone());
                    self.ctl.record_push(&n, cf.clone(), true);
                }
                true
            }
            ControlAction::BootstrapOne(n, cf) => {
                self.set_ring(&n, cf.clone());
                self.ctl.record_push(&n, cf, true);
                true
            }
            ControlAction::BeginAdd(cc, vn, n) => {
                let (to, cf) = Controller::begin_add_plan(&cc, &vn, &n).ok().unwrap();
                self.set_ring(&to, cf.clone());
                self.ctl.record_push(&to, cf, true);
                true
            }
            ControlAction::TryFinishAdd(cc, vn, n) => {
                let plan = self.ctl.finish_add_plan(&cc, &vn, &n).ok().unwrap();
                self.drain(&plan.old_owner, &vn, &n);
                for o in plan.others.iter() {
                    self.set_ring(o, plan.config.clone());
                    self.ctl.record_push(o, plan.config.clone(), true);
                }
                self.set_ring(&plan.old_owner, plan.config.clone());
                self.ctl.record_push(&plan.old_owner, plan.config.clone(), true);
                true
            }
        }
    }

    fn reconcile(&mut self) {
        let mut rounds = 0;
        while self.reconcile_once() {
            rounds += 1;
            assert!(rounds < 500);
        }
    }
}

#[test]
fn single_node_bootstrap() {
    let mut c: Cluster<Max> = Cluster::new(&["n1"]);
    assert_eq!(c.get("n1", "s", "k"), Err(RouteError::NoPeers));
    c.reconcile();
    assert_eq!(c.get("n1", "s", "k"), Ok(None));
    assert_eq!(c.put("n1", "s", "k", Max(5)), Ok(Max(5)));
    assert_eq!(c.get("n1", "s", "k"), Ok(Some(Max(5))));
}

#[test]
fn two_node_steady_state() {
    let mut c: Cluster<Max> = Cluster::new(&["n1", "n2"]);
    c.reconcile();
    for n in ["n1", "n2"] {
        assert_eq!(c.nodes[n].ring.as_ref().unwrap().0.nodes.len(), 32);
    }
    for i in 0..40u64 {
        let key = format!("k{i}");
        let at = if i % 2 == 0 { "n1" } else { "n2" };
        c.put(at, "s", &key, Max(i)).unwrap();
    }
    for i in 0..40u64 {
        let key = format!("k{i}");
        for _ in 0..3 {
            assert_eq!(c.get("n1", "s", &key), Ok(Some(Max(i))));
            assert_eq!(c.get("n2", "s", &key), Ok(Some(Max(i))));
        }
    }
    let stored: usize = c.nodes.values().map(|n| n.store.len()).sum();
    assert_eq!(stored, 40);
}

#[test]
fn add_a_third_node() {
    let mut c: Cluster<Max> = Cluster::new(&["n1", "n2"]);
    c.reconcile();
    for i in 0..100u64 {
        c.put("n1", "s", &format!("k{i}"), Max(i)).unwrap();
    }
    c.add_node("n3");
    c.reconcile();
    for n in ["n1", "n2", "n3"] {
        assert_eq!(c.nodes[n].ring.as_ref().unwrap().0.nodes.len(), 48);
        assert!(c.nodes[n].ring.as_ref().unwrap().0.update.is_none());
    }
    for i in 0..100u64 {
        for at in ["n1", "n2", "n3"] {
            assert_eq!(c.get(at, "s", &format!("k{i}")), Ok(Some(Max(i))));
        }
    }
    assert!(!c.nodes["n3"].store.is_empty());
    let stored: usize = c.nodes.values().map(|n| n.store.len()).sum();
    assert_eq!(stored, 100);
}

#[test]
fn crdt_convergence_of_concurrent_puts() {
    let mut c: Cluster<Version<HashSet<u64>>> = Cluster::new(&["n1", "n2"]);
    c.reconcile();
    c.put("n1", "s", "k", Version(1, [1u64, 2].into_iter().collect())).unwrap();
    c.put("n2", "s", "k", Version(1, [3u64].into_iter().collect())).unwrap();
    let expected: HashSet<u64> = [1u64, 2, 3].into_iter().collect();
    for at in ["n1", "n2"] {
        let v = c.get(at, "s", "k").unwrap().unwrap();
        assert_eq!(v.0, 1);
        assert_eq!(v.1, expected);
    }
    c.put("n2", "s", "k", Version(2, [9u64].into_iter().collect())).unwrap();
    let v = c.get("n1", "s", "k").unwrap().unwrap();
    assert_eq!((v.0, v.1), (2, [9u64].into_iter().collect()));
}

#[test]
fn misrouting_ring_fails_with_ttl_expired() {
    let mut c: Cluster<Max> = Cluster::new(&["n1", "n2"]);
    c.reconcile();
    let cf = c.nodes["n1"].ring.as_ref().unwrap().0.clone();
    // n1 believes every slot is n2's, and n2 believes every slot is n1's.
    let mut at_n1 = RingConfig::empty();
    let mut at_n2 = RingConfig::empty();
    for (vn, _) in cf.nodes.iter() {
        at_n1.insert_node(vn.clone(), ni("n2"));
        at_n2.insert_node(vn.clone(), ni("n1"));
    }
    c.set_ring(&ni("n1"), at_n1);
    c.set_ring(&ni("n2"), at_n2);
    assert_eq!(c.get("n1", "s", "k"), Err(RouteError::TtlExpired));
    assert_eq!(c.put("n2", "s", "k", Max(1)), Err(RouteError::TtlExpired));
}

#[test]
fn drain_loses_no_write() {
    let mut c: Cluster<Max> = Cluster::new(&["n1", "n2"]);
    c.reconcile();
    c.add_node("n3");
    // Bring n3 in as a node without slots yet, then begin one addition.
    let mut began = None;
    while began.is_none() {
        let names: Vec<NetworkId> = c.nodes.keys().map(|n| ni(n)).collect();
        let desired = DesiredConfig::from_nodes(names);
        for router in c.ctl.routers_to_fetch(&desired) {
            let ring = c.nodes[&router.0].ring.as_ref().map(|(cf, _)| cf.clone());
            c.ctl.record_fetched(&router, ring);
        }
        match c.ctl.action(&desired).ok().unwrap() {
            ControlAction::BootstrapOne(n, cf) => {
                c.set_ring(&n, cf.clone());
                c.ctl.record_push(&n, cf, true);
            }
            ControlAction::BeginAdd(cc, vn, n) => {
                let (to, cf) = Controller::begin_add_plan(&cc, &vn, &n).ok().unwrap();
                c.set_ring(&to, cf.clone());
                c.ctl.record_push(&to, cf, true);
                began = Some((to, vn, n));
            }
            _ => panic!("unexpected step"),
        }
    }
    let (old_owner, vn, new_owner) = began.unwrap();
    let range = {
        let (_, ring) = c.nodes[&old_owner.0].ring.as_ref().unwrap();
        drain_range(ring, &vn).unwrap()
    };
    let keys: Vec<String> = (0..3000)
        .map(|i| format!("m{i}"))
        .filter(|k| range.contains(&CompositeKey { scope: "s".to_string(), key: k.clone() }))
        .take(100)
        .collect();
    assert!(!keys.is_empty());
    // Values written before the drain land on the old owner.
    for (i, k) in keys.iter().enumerate() {
        c.put_here(&old_owner, "s", k, Max(i as u64));
    }
    // Half of the concurrent writes come before the drain moves the keys,
    // half after; all of them go to the new owner.
    for (i, k) in keys.iter().enumerate().take(keys.len() / 2) {
        assert!(c.nodes[&old_owner.0].ring.as_ref().unwrap().0.update.is_some());
        c.put(&old_owner.0, "s", k, Max(1000 + i as u64)).unwrap();
    }
    c.drain(&old_owner, &vn, &new_owner);
    for (i, k) in keys.iter().enumerate().skip(keys.len() / 2) {
        c.put(&old_owner.0, "s", k, Max(i as u64 / 2)).unwrap();
    }
    c.reconcile();
    assert!(c.nodes[&old_owner.0].ring.as_ref().unwrap().0.update.is_none());
    for (i, k) in keys.iter().enumerate() {
        let expected = if i < keys.len() / 2 { Max(1000 + i as u64) } else { Max(i as u64) };
        assert_eq!(c.get_here(&new_owner, "s", k), Some(expected));
        assert_eq!(c.get(&old_owner.0, "s", k), Ok(Some(expected)));
        assert_eq!(c.get_here(&old_owner, "s", k), None);
    }
    let _ = RingUpdateConfig::ToAdd { vn, ni: new_owner };
}
