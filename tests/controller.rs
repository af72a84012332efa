use haze::config::{NetworkId, RingConfig, RingUpdateConfig};
use haze::controller::{
    ActualConfig, ClusterConfig, ControlAction, Controller, ControllerError, DEFAULT_WEIGHT,
    DesiredConfig, mk_virtual_node,
};
use haze::ring::{HashRing, VirtualNodeId};

fn vn(s: &str) -> VirtualNodeId {
    VirtualNodeId(s.to_string())
}

fn ni(s: &str) -> NetworkId {
    NetworkId(s.to_string())
}

fn desired(names: &[&str]) -> DesiredConfig {
    DesiredConfig::from_nodes(names.iter().map(|n| ni(n)).collect())
}

fn node_count(cf: &RingConfig) -> usize {
    cf.nodes.len()
}

#[test]
fn virtual_node_names_are_two_hex_digits() {
    assert_eq!(mk_virtual_node(&ni("n1"), 0), vn("n1/00"));
    assert_eq!(mk_virtual_node(&ni("n1"), 10), vn("n1/0a"));
    assert_eq!(mk_virtual_node(&ni("host:80"), 15), vn("host:80/0f"));
    assert_eq!(mk_virtual_node(&ni("x"), 255), vn("x/ff"));
}

#[test]
fn desired_config_has_sixteen_slots_per_node() {
    let d = desired(&["a", "b", "a"]);
    assert_eq!(d.weight.len(), 2);
    assert!(d.weight.iter().all(|(_, w)| *w == DEFAULT_WEIGHT));
    let cf = d.as_ring_config();
    assert_eq!(node_count(&cf), 32);
    assert!(cf.update.is_none());
    for i in 0..16 {
        assert_eq!(cf.network_id(&vn(&format!("a/{i:02x}"))), Some(&ni("a")));
        assert_eq!(cf.network_id(&vn(&format!("b/{i:02x}"))), Some(&ni("b")));
    }
    assert_eq!(cf.network_id(&vn("a/10")), None);
}

#[test]
fn desired_config_is_the_same_for_the_same_nodes() {
    let x = desired(&["a", "b"]).as_ring_config();
    let y = desired(&["b", "a"]).as_ring_config();
    assert!(x.same_config(&y));
}

fn configured(cf: &RingConfig) -> ActualConfig {
    ActualConfig::Configured(cf.clone())
}

#[test]
fn parse_requires_a_configured_node() {
    let known = vec![(ni("a"), ActualConfig::Unconfigured)];
    assert!(matches!(ClusterConfig::parse(&known), Err(ControllerError::NoConfigs)));
}

#[test]
fn parse_accepts_identical_rings() {
    let cf = desired(&["a", "b"]).as_ring_config();
    let known = vec![(ni("a"), configured(&cf)), (ni("b"), configured(&cf)), (ni("c"), ActualConfig::Unconfigured)];
    let cc = ClusterConfig::parse(&known).ok().unwrap();
    assert!(cc.ring.same_config(&cf));
}

#[test]
fn parse_accepts_before_and_after_of_one_addition() {
    let before = desired(&["a"]).as_ring_config();
    let mut adding = before.clone();
    adding.update = Some(RingUpdateConfig::ToAdd { vn: vn("b/00"), ni: ni("b") });
    let mut after = before.clone();
    after.insert_node(vn("b/00"), ni("b"));
    let known = vec![(ni("x"), configured(&after)), (ni("a"), configured(&adding)), (ni("y"), configured(&before))];
    let cc = ClusterConfig::parse(&known).ok().unwrap();
    assert!(cc.ring.same_nodes(&before));
    assert_eq!(cc.ring.update, adding.update);
}

#[test]
fn parse_rejects_two_updates() {
    let before = desired(&["a"]).as_ring_config();
    let mut adding = before.clone();
    adding.update = Some(RingUpdateConfig::ToAdd { vn: vn("b/00"), ni: ni("b") });
    let known = vec![(ni("a"), configured(&adding)), (ni("b"), configured(&adding))];
    assert!(matches!(ClusterConfig::parse(&known), Err(ControllerError::MultipleUpdates)));
}

#[test]
fn parse_rejects_diverging_rings() {
    let x = desired(&["a"]).as_ring_config();
    let y = desired(&["b"]).as_ring_config();
    let known = vec![(ni("a"), configured(&x)), (ni("b"), configured(&y))];
    assert!(matches!(ClusterConfig::parse(&known), Err(ControllerError::Inconsistent)));
    let mut z = x.clone();
    z.insert_node(vn("c/00"), ni("c"));
    z.insert_node(vn("c/01"), ni("c"));
    let mut adding = x.clone();
    adding.update = Some(RingUpdateConfig::ToAdd { vn: vn("c/00"), ni: ni("c") });
    let known = vec![(ni("a"), configured(&adding)), (ni("b"), configured(&z))];
    assert!(matches!(ClusterConfig::parse(&known), Err(ControllerError::Inconsistent)));
}

#[test]
fn parse_one_copies_the_ring() {
    let cf = desired(&["a"]).as_ring_config();
    let cc = ClusterConfig::parse_one(&cf).ok().unwrap();
    assert!(cc.ring.same_config(&cf));
}

#[test]
fn actual_config_accessors() {
    let cf = RingConfig::singleton("n");
    assert!(configured(&cf).is_configured());
    assert!(!configured(&cf).is_unconfigured());
    assert!(ActualConfig::Unconfigured.is_unconfigured());
    assert!(ActualConfig::Unconfigured.as_config().is_none());
    assert!(configured(&cf).as_config().unwrap().same_config(&cf));
}

#[test]
fn bootstrap_all_when_nothing_is_configured() {
    let c = Controller { known: vec![(ni("a"), ActualConfig::Unconfigured)] };
    assert!(matches!(c.action(&desired(&["a"])), Ok(ControlAction::BootstrapAll)));
    assert!(matches!(Controller::new().action(&desired(&["a"])), Ok(ControlAction::BootstrapAll)));
}

#[test]
fn bootstrap_one_gives_the_cluster_ring() {
    let cf = desired(&["a"]).as_ring_config();
    let c = Controller { known: vec![(ni("a"), configured(&cf)), (ni("b"), ActualConfig::Unconfigured)] };
    match c.action(&desired(&["a", "b"])) {
        Ok(ControlAction::BootstrapOne(to, ring)) => {
            assert_eq!(to, ni("b"));
            assert!(ring.same_config(&cf));
        }
        _ => panic!("expected BootstrapOne"),
    }
}

#[test]
fn begin_add_for_a_missing_slot() {
    let cf = desired(&["a"]).as_ring_config();
    let c = Controller { known: vec![(ni("a"), configured(&cf)), (ni("b"), configured(&cf))] };
    match c.action(&desired(&["a", "b"])) {
        Ok(ControlAction::BeginAdd(cc, v, n)) => {
            assert!(cc.ring.same_config(&cf));
            assert_eq!(n, ni("b"));
            assert!(v.0.starts_with("b/"));
            let (to, plan) = Controller::begin_add_plan(&cc, &v, &n).ok().unwrap();
            assert_eq!(to, ni("a"));
            assert!(plan.same_nodes(&cf));
            assert_eq!(plan.update, Some(RingUpdateConfig::ToAdd { vn: v.clone(), ni: ni("b") }));
        }
        _ => panic!("expected BeginAdd"),
    }
}

#[test]
fn nothing_to_do_in_steady_state() {
    let cf = desired(&["a", "b"]).as_ring_config();
    let c = Controller { known: vec![(ni("a"), configured(&cf)), (ni("b"), configured(&cf))] };
    assert!(matches!(c.action(&desired(&["a", "b"])), Ok(ControlAction::Nothing)));
}

#[test]
fn try_finish_add_while_an_addition_runs() {
    let cf = desired(&["a"]).as_ring_config();
    let mut adding = cf.clone();
    adding.update = Some(RingUpdateConfig::ToAdd { vn: vn("b/03"), ni: ni("b") });
    let c = Controller { known: vec![(ni("a"), configured(&adding)), (ni("b"), configured(&cf)), (ni("c"), configured(&cf))] };
    match c.action(&desired(&["a", "b", "c"])) {
        Ok(ControlAction::TryFinishAdd(cc, v, n)) => {
            assert_eq!(v, vn("b/03"));
            assert_eq!(n, ni("b"));
            let plan = c.finish_add_plan(&cc, &v, &n).ok().unwrap();
            assert_eq!(plan.old_owner, ni("a"));
            assert_eq!(plan.others, vec![ni("b"), ni("c")]);
            assert_eq!(plan.config.network_id(&vn("b/03")), Some(&ni("b")));
            assert!(plan.config.update.is_none());
            assert_eq!(node_count(&plan.config), 17);
        }
        _ => panic!("expected TryFinishAdd"),
    }
}

#[test]
fn removal_is_not_carried_out() {
    let cf = desired(&["a"]).as_ring_config();
    let mut removing = cf.clone();
    removing.update = Some(RingUpdateConfig::ToRemove { vn: vn("a/00"), ni: ni("a") });
    let c = Controller { known: vec![(ni("a"), configured(&removing))] };
    assert!(matches!(c.action(&desired(&["a"])), Err(ControllerError::UnsupportedUpdate)));
}

#[test]
fn inconsistent_cluster_stops_the_round() {
    let c = Controller {
        known: vec![
            (ni("a"), configured(&desired(&["a"]).as_ring_config())),
            (ni("b"), configured(&desired(&["b"]).as_ring_config())),
        ],
    };
    assert!(matches!(c.action(&desired(&["a", "b"])), Err(ControllerError::Inconsistent)));
}

#[test]
fn split_owner_of_an_empty_ring_is_missing() {
    let cc = ClusterConfig { ring: RingConfig::empty() };
    assert!(matches!(Controller::split_owner(&cc, &vn("x")), Err(ControllerError::MissingOwner)));
    assert!(matches!(Controller::begin_add_plan(&cc, &vn("x"), &ni("x")), Err(ControllerError::MissingOwner)));
}

#[test]
fn split_owner_follows_the_ring() {
    let cf = desired(&["a", "b"]).as_ring_config();
    let ring = HashRing::from_config(&cf);
    let cc = ClusterConfig { ring: cf.clone() };
    for i in 0..16 {
        let v = vn(&format!("c/{i:02x}"));
        let expected = cf.network_id(ring.cursor(&v).get()).unwrap().clone();
        assert_eq!(Controller::split_owner(&cc, &v).ok().unwrap(), expected);
    }
}

#[test]
fn push_bookkeeping() {
    let cf = RingConfig::singleton("a");
    let mut c = Controller::new();
    assert!(c.push_needed(&ni("a"), &cf));
    c.record_push(&ni("a"), cf.clone(), true);
    assert!(!c.push_needed(&ni("a"), &cf));
    assert!(c.push_needed(&ni("a"), &RingConfig::singleton("b")));
    c.record_push(&ni("a"), cf.clone(), false);
    assert!(c.known.is_empty());
    c.record_fetched(&ni("b"), None);
    c.record_fetched(&ni("c"), Some(cf.clone()));
    c.record_fetched(&ni("b"), Some(cf.clone()));
    assert_eq!(c.known.len(), 2);
    assert!(!c.push_needed(&ni("b"), &cf));
    let fetch = c.routers_to_fetch(&desired(&["a", "b", "c", "d"]));
    assert_eq!(fetch, vec![ni("a"), ni("d")]);
}

#[test]
fn well_formed_configs_list_each_node_once() {
    let mut cf = RingConfig::singleton("a");
    assert!(cf.check_wf());
    cf.nodes.push((vn("a"), ni("b")));
    assert!(!cf.check_wf());
    assert!(RingConfig::empty().check_wf());
}
