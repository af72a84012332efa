//! The cluster controller's decisions: the ring it wants, how it reads the
//! rings that the nodes report, and which single step it takes next.
use vstd::prelude::*;
use vstd::string::StringExecFns;
use crate::config::{
    NetworkId, RingConfig, RingConfigView, RingUpdate, RingUpdateConfig, duplicate_update,
    same_update, update_view,
};
use crate::hex::{hex_digit, hex_digit_str};
use crate::ring::{HashRing, VirtualNodeId, owns};

verus! {

/// The number of virtual nodes that each network node gets.
pub const DEFAULT_WEIGHT: usize = 16;

/// The name of the `i`-th virtual node of network node `ni`: the network ID,
/// a slash, and `i` as two lower-case hexadecimal digits.
pub open spec fn vnode_name(ni: Seq<char>, i: nat) -> Seq<char> {
    ni + seq!['/', hex_digit(i / 16), hex_digit(i % 16)]
}

/// The ID of the `i`-th virtual node of network node `ni`.
pub fn mk_virtual_node(ni: &NetworkId, i: usize) -> (r: VirtualNodeId)
    requires
        i < 256,
    ensures
        r@ == vnode_name(ni@, i as nat),
{
    let mut s = ni.0.clone();
    proof {
        reveal_strlit("/");
    }
    s.append("/");
    s.append(hex_digit_str(i / 16));
    s.append(hex_digit_str(i % 16));
    assert(s@ =~= vnode_name(ni@, i as nat));
    VirtualNodeId(s)
}

proof fn lemma_hex_digit_injective(a: nat, b: nat)
    requires
        a < 16,
        b < 16,
        hex_digit(a) == hex_digit(b),
    ensures
        a == b,
{
}

/// Distinct (network node, index) pairs name distinct virtual nodes.
pub proof fn lemma_vnode_name_injective(n1: Seq<char>, i1: nat, n2: Seq<char>, i2: nat)
    requires
        i1 < 256,
        i2 < 256,
        vnode_name(n1, i1) == vnode_name(n2, i2),
    ensures
        n1 == n2,
        i1 == i2,
{
    let a = vnode_name(n1, i1);
    let b = vnode_name(n2, i2);
    assert(a.len() == b.len());
    assert(n1.len() == n2.len());
    assert forall|k: int| 0 <= k < n1.len() implies n1[k] == n2[k] by {
        assert(a[k] == n1[k]);
        assert(b[k] == n2[k]);
    }
    assert(n1 =~= n2);
    assert(a[n1.len() as int + 1] == hex_digit(i1 / 16));
    assert(b[n1.len() as int + 1] == hex_digit(i2 / 16));
    assert(a[n1.len() as int + 2] == hex_digit(i1 % 16));
    assert(b[n1.len() as int + 2] == hex_digit(i2 % 16));
    lemma_hex_digit_injective(i1 / 16, i2 / 16);
    lemma_hex_digit_injective(i1 % 16, i2 % 16);
}

pub open spec fn weight_names(w: Seq<(NetworkId, usize)>) -> Set<Seq<char>> {
    Set::new(|n: Seq<char>| exists|i: int| 0 <= i < w.len() && w[i].0@ == n)
}

pub open spec fn net_names(s: Seq<NetworkId>) -> Set<Seq<char>> {
    Set::new(|n: Seq<char>| exists|i: int| 0 <= i < s.len() && s[i]@ == n)
}

/// The ring that the controller aims for: every network node with its weight
/// in virtual nodes.
pub struct DesiredConfig {
    /// Each network node once, with its number of virtual nodes.
    pub weight: Vec<(NetworkId, usize)>,
}

impl DesiredConfig {
    pub open spec fn wf(&self) -> bool {
        &&& forall|i: int, j: int|
            0 <= i < j < self.weight@.len() ==> self.weight@[i].0@ != self.weight@[j].0@
        &&& forall|i: int| 0 <= i < self.weight@.len() ==> #[trigger] self.weight@[i].1 <= 256
    }

    /// The network nodes that the ring is to hold.
    pub open spec fn members(&self) -> Set<Seq<char>> {
        weight_names(self.weight@)
    }

    /// The ring that this configuration stands for: each member `ni` of
    /// weight `w` owns the virtual nodes `vnode_name(ni, i)` for `i < w`.
    pub open spec fn target(&self) -> Map<Seq<char>, Seq<char>> {
        Map::new(
            |vn: Seq<char>|
                exists|k: int, i: nat|
                    0 <= k < self.weight@.len() && i < self.weight@[k].1 && vn == vnode_name(
                        self.weight@[k].0@,
                        i,
                    ),
            |vn: Seq<char>|
                {
                    let (k, i) = choose|k: int, i: nat|
                        0 <= k < self.weight@.len() && i < self.weight@[k].1 && vn == vnode_name(
                            self.weight@[k].0@,
                            i,
                        );
                    self.weight@[k].0@
                },
        )
    }

    /// Every listed network node, once, with the default weight.
    pub fn from_nodes(nodes: Vec<NetworkId>) -> (r: DesiredConfig)
        ensures
            r.wf(),
            r.members() == net_names(nodes@),
            forall|i: int| 0 <= i < r.weight@.len() ==> #[trigger] r.weight@[i].1 == DEFAULT_WEIGHT,
    {
        let mut weight: Vec<(NetworkId, usize)> = Vec::new();
        let mut k: usize = 0;
        while k < nodes.len()
            invariant
                k <= nodes@.len(),
                forall|i: int, j: int| 0 <= i < j < weight@.len() ==> weight@[i].0@ != weight@[j].0@,
                forall|i: int| 0 <= i < weight@.len() ==> #[trigger] weight@[i].1 == DEFAULT_WEIGHT,
                weight_names(weight@) == net_names(nodes@.subrange(0, k as int)),
            decreases nodes@.len() - k,
        {
            let ni = &nodes[k];
            let mut found = false;
            let mut j: usize = 0;
            while j < weight.len()
                invariant
                    j <= weight@.len(),
                    found == exists|q: int| 0 <= q < j && weight@[q].0@ == ni@,
                decreases weight@.len() - j,
            {
                if weight[j].0.same(ni) {
                    found = true;
                }
                j = j + 1;
            }
            let ghost before = weight@;
            let ghost pre = nodes@.subrange(0, k as int);
            let ghost post = nodes@.subrange(0, k + 1);
            assert(post =~= pre.push(nodes@[k as int]));
            if !found {
                weight.push((ni.duplicate(), DEFAULT_WEIGHT));
                proof {
                    assert(weight@ =~= before.push(weight@.last()));
                    assert forall|n: Seq<char>| #[trigger] weight_names(weight@).contains(n) == net_names(post).contains(n) by {
                        if weight_names(weight@).contains(n) {
                            let i = choose|i: int| 0 <= i < weight@.len() && weight@[i].0@ == n;
                            if i < before.len() {
                                assert(weight_names(before).contains(n));
                                let q = choose|q: int| 0 <= q < pre.len() && pre[q]@ == n;
                                assert(post[q]@ == n);
                            } else {
                                assert(post[k as int]@ == n);
                            }
                        }
                        if net_names(post).contains(n) {
                            let i = choose|i: int| 0 <= i < post.len() && post[i]@ == n;
                            if i < k {
                                assert(pre[i]@ == n);
                                assert(net_names(pre).contains(n));
                                let q = choose|q: int| 0 <= q < before.len() && before[q].0@ == n;
                                assert(weight@[q] == before[q]);
                            } else {
                                assert(weight@[before.len() as int].0@ == n);
                            }
                        }
                    }
                    assert(weight_names(weight@) =~= net_names(post));
                }
            } else {
                proof {
                    assert forall|n: Seq<char>| #[trigger] weight_names(weight@).contains(n) == net_names(post).contains(n) by {
                        if weight_names(weight@).contains(n) {
                            let q = choose|q: int| 0 <= q < pre.len() && pre[q]@ == n;
                            assert(post[q]@ == n);
                        }
                        if net_names(post).contains(n) {
                            let i = choose|i: int| 0 <= i < post.len() && post[i]@ == n;
                            if i == k {
                                let q = choose|q: int| 0 <= q < weight@.len() && weight@[q].0@ == ni@;
                                assert(weight@[q].0@ == n);
                            } else {
                                assert(pre[i]@ == n);
                                assert(net_names(pre).contains(n));
                            }
                        }
                    }
                    assert(weight_names(weight@) =~= net_names(post));
                }
            }
            k = k + 1;
        }
        assert(nodes@.subrange(0, nodes@.len() as int) =~= nodes@);
        DesiredConfig { weight }
    }

    /// The network nodes of the configuration.
    pub fn network_ids(&self) -> (r: Vec<NetworkId>)
        ensures
            r@.len() == self.weight@.len(),
            forall|i: int| 0 <= i < r@.len() ==> #[trigger] r@[i]@ == self.weight@[i].0@,
    {
        let mut out: Vec<NetworkId> = Vec::new();
        let mut i: usize = 0;
        while i < self.weight.len()
            invariant
                i <= self.weight@.len(),
                out@.len() == i,
                forall|j: int| 0 <= j < i ==> #[trigger] out@[j]@ == self.weight@[j].0@,
            decreases self.weight@.len() - i,
        {
            out.push(self.weight[i].0.duplicate());
            i = i + 1;
        }
        out
    }

    /// The ring configuration with every member's virtual nodes and no update.
    pub fn as_ring_config(&self) -> (r: RingConfig)
        requires
            self.wf(),
        ensures
            r.wf(),
            r@.nodes == self.target(),
            r@.update.is_none(),
    {
        let mut cf = RingConfig::empty();
        let mut k: usize = 0;
        while k < self.weight.len()
            invariant
                self.wf(),
                k <= self.weight@.len(),
                cf.wf(),
                cf@.update.is_none(),
                forall|vn: Seq<char>|
                    #[trigger] cf@.nodes.contains_key(vn) <==> exists|q: int, i: nat|
                        0 <= q < k && i < self.weight@[q].1 && vn == vnode_name(self.weight@[q].0@, i),
                forall|q: int, i: nat|
                    0 <= q < k && i < self.weight@[q].1 ==> #[trigger] cf@.nodes[vnode_name(
                        self.weight@[q].0@,
                        i,
                    )] == self.weight@[q].0@,
            decreases self.weight@.len() - k,
        {
            let (ni, w) = &self.weight[k];
            let mut i: usize = 0;
            while i < *w
                invariant
                    self.wf(),
                    k < self.weight@.len(),
                    ni@ == self.weight@[k as int].0@,
                    *w == self.weight@[k as int].1,
                    *w <= 256,
                    i <= *w,
                    cf.wf(),
                    cf@.update.is_none(),
                    forall|vn: Seq<char>|
                        #[trigger] cf@.nodes.contains_key(vn) <==> (exists|q: int, j: nat|
                            0 <= q < k && j < self.weight@[q].1 && vn == vnode_name(self.weight@[q].0@, j))
                            || (exists|j: nat| j < i && vn == vnode_name(ni@, j)),
                    forall|q: int, j: nat|
                        0 <= q < k && j < self.weight@[q].1 ==> #[trigger] cf@.nodes[vnode_name(
                            self.weight@[q].0@,
                            j,
                        )] == self.weight@[q].0@,
                    forall|j: nat| j < i ==> #[trigger] cf@.nodes[vnode_name(ni@, j)] == ni@,
                decreases *w - i,
            {
                let vn = mk_virtual_node(ni, i);
                let ghost before = cf@.nodes;
                cf.insert_node(vn, ni.duplicate());
                proof {
                    assert forall|q: int, j: nat|
                        0 <= q < k && j < self.weight@[q].1 implies #[trigger] cf@.nodes[vnode_name(
                            self.weight@[q].0@,
                            j,
                        )] == self.weight@[q].0@ by {
                        if vnode_name(self.weight@[q].0@, j) == vnode_name(ni@, i as nat) {
                            lemma_vnode_name_injective(self.weight@[q].0@, j, ni@, i as nat);
                        }
                    }
                    assert forall|j: nat| j < i + 1 implies #[trigger] cf@.nodes[vnode_name(ni@, j)] == ni@ by {
                        if j < i {
                            if vnode_name(ni@, j) == vnode_name(ni@, i as nat) {
                                lemma_vnode_name_injective(ni@, j, ni@, i as nat);
                            }
                        }
                    }
                    assert forall|vn: Seq<char>|
                        #[trigger] cf@.nodes.contains_key(vn) <==> (exists|q: int, j: nat|
                            0 <= q < k && j < self.weight@[q].1 && vn == vnode_name(self.weight@[q].0@, j))
                            || (exists|j: nat| j < i + 1 && vn == vnode_name(ni@, j)) by {
                        if vn == vnode_name(ni@, i as nat) {
                            assert(exists|j: nat| j < i + 1 && vn == vnode_name(ni@, j));
                        }
                        if exists|j: nat| j < i + 1 && vn == vnode_name(ni@, j) {
                            let j = choose|j: nat| j < i + 1 && vn == vnode_name(ni@, j);
                            if j < i {
                                assert(before.contains_key(vn));
                            }
                        }
                    }
                }
                i = i + 1;
            }
            proof {
                assert forall|vn: Seq<char>|
                    #[trigger] cf@.nodes.contains_key(vn) <==> exists|q: int, j: nat|
                        0 <= q < k + 1 && j < self.weight@[q].1 && vn == vnode_name(self.weight@[q].0@, j) by {
                    if exists|j: nat| j < i && vn == vnode_name(ni@, j) {
                        let j = choose|j: nat| j < i && vn == vnode_name(ni@, j);
                        assert(0 <= k < k + 1 && j < self.weight@[k as int].1 && vn == vnode_name(self.weight@[k as int].0@, j));
                    }
                    if exists|q: int, j: nat| 0 <= q < k + 1 && j < self.weight@[q].1 && vn == vnode_name(self.weight@[q].0@, j) {
                        let (q, j) = choose|q: int, j: nat| 0 <= q < k + 1 && j < self.weight@[q].1 && vn == vnode_name(self.weight@[q].0@, j);
                        if q == k {
                            assert(exists|j: nat| j < i && vn == vnode_name(ni@, j));
                        } else {
                            assert(exists|q: int, j: nat| 0 <= q < k && j < self.weight@[q].1 && vn == vnode_name(self.weight@[q].0@, j));
                        }
                    }
                }
                assert forall|q: int, j: nat|
                    0 <= q < k + 1 && j < self.weight@[q].1 implies #[trigger] cf@.nodes[vnode_name(
                        self.weight@[q].0@,
                        j,
                    )] == self.weight@[q].0@ by {
                    if q == k {
                        assert(cf@.nodes[vnode_name(ni@, j)] == ni@);
                    }
                }
            }
            k = k + 1;
        }
        proof {
            assert forall|vn: Seq<char>| #[trigger] cf@.nodes.contains_key(vn) implies cf@.nodes[vn] == self.target()[vn] by {
                let (q, j) = choose|q: int, j: nat| 0 <= q < self.weight@.len() && j < self.weight@[q].1 && vn == vnode_name(self.weight@[q].0@, j);
                let (q2, j2) = choose|q2: int, j2: nat| 0 <= q2 < self.weight@.len() && j2 < self.weight@[q2].1 && vn == vnode_name(self.weight@[q2].0@, j2);
                assert(self.target()[vn] == self.weight@[q2].0@);
                assert(cf@.nodes[vnode_name(self.weight@[q].0@, j)] == self.weight@[q].0@);
                lemma_vnode_name_injective(self.weight@[q].0@, j, self.weight@[q2].0@, j2);
            }
            assert(cf@.nodes.dom() =~= self.target().dom());
            assert(cf@.nodes =~= self.target());
        }
        cf
    }
}

/// Why the controller cannot act this round.
#[derive(Debug, Clone, Copy, PartialEq, Eq, Structural)]
pub enum ControllerError {
    /// No node reports a ring.
    NoConfigs,
    /// More than one node reports a change in progress.
    MultipleUpdates,
    /// The reported rings do not agree, even allowing for the change in progress.
    Inconsistent,
    /// A change in progress is of a kind the controller does not carry out.
    UnsupportedUpdate,
    /// The slot to be split has no owner, or the ring is empty.
    MissingOwner,
}

/// What the controller knows of one node's ring.
pub enum ActualConfig {
    Configured(RingConfig),
    Unconfigured,
}

impl ActualConfig {
    pub fn is_configured(&self) -> (r: bool)
        ensures
            r == (self is Configured),
    {
        match self {
            ActualConfig::Configured(_) => true,
            _ => false,
        }
    }

    pub fn is_unconfigured(&self) -> (r: bool)
        ensures
            r == (self is Unconfigured),
    {
        match self {
            ActualConfig::Unconfigured => true,
            _ => false,
        }
    }

    pub fn as_config(&self) -> (r: Option<&RingConfig>)
        ensures
            r matches Some(c) ==> self == ActualConfig::Configured(*c),
            r is None <==> self is Unconfigured,
    {
        match self {
            ActualConfig::Configured(x) => Some(x),
            _ => None,
        }
    }
}

/// What the nodes report, one entry per node.
pub type Known = Seq<(NetworkId, ActualConfig)>;

pub open spec fn configured_at(k: Known, i: int) -> bool {
    k[i].1 is Configured
}

pub open spec fn ring_at(k: Known, i: int) -> RingConfigView {
    match k[i].1 {
        ActualConfig::Configured(r) => r@,
        ActualConfig::Unconfigured => RingConfigView { nodes: Map::empty(), update: None },
    }
}

/// Each node once, and each reported ring well formed.
pub open spec fn known_wf(k: Known) -> bool {
    &&& forall|i: int, j: int| 0 <= i < j < k.len() ==> k[i].0@ != k[j].0@
    &&& forall|i: int| 0 <= i < k.len() ==> (#[trigger] k[i].1 matches ActualConfig::Configured(r) ==> r.wf())
}

pub open spec fn carries_update(k: Known, i: int) -> bool {
    configured_at(k, i) && ring_at(k, i).update is Some
}

pub open spec fn any_configured(k: Known) -> bool {
    exists|i: int| 0 <= i < k.len() && configured_at(k, i)
}

pub open spec fn two_updates(k: Known) -> bool {
    exists|i: int, j: int| 0 <= i < j < k.len() && carries_update(k, i) && carries_update(k, j)
}

/// The change in progress that some node reports, if any.
pub open spec fn reported_update(k: Known) -> Option<RingUpdate> {
    if exists|i: int| 0 <= i < k.len() && carries_update(k, i) {
        ring_at(k, choose|i: int| 0 <= i < k.len() && carries_update(k, i)).update
    } else {
        None
    }
}

/// The first node that reports a ring.
pub open spec fn first_configured(k: Known) -> int {
    choose|i: int| 0 <= i < k.len() && configured_at(k, i) && forall|j: int| 0 <= j < i ==> !configured_at(k, j)
}

/// The nodes of the ring once the change is done.
pub open spec fn after_update(nodes: Map<Seq<char>, Seq<char>>, u: Option<RingUpdate>) -> Map<Seq<char>, Seq<char>> {
    match u {
        Some(RingUpdate::ToAdd(vn, ni)) => nodes.insert(vn, ni),
        Some(RingUpdate::ToRemove(vn, _)) => nodes.remove(vn),
        None => nodes,
    }
}

/// The nodes of the ring before the change starts.
pub open spec fn before_update(nodes: Map<Seq<char>, Seq<char>>, u: Option<RingUpdate>) -> Map<Seq<char>, Seq<char>> {
    match u {
        Some(RingUpdate::ToAdd(vn, _)) => nodes.remove(vn),
        Some(RingUpdate::ToRemove(vn, ni)) => nodes.insert(vn, ni),
        None => nodes,
    }
}

/// A reported ring agrees with the change `u` when it is the ring before or
/// after it and carries no other change.
pub open spec fn agrees(
    r: RingConfigView,
    with: Map<Seq<char>, Seq<char>>,
    without: Map<Seq<char>, Seq<char>>,
    u: Option<RingUpdate>,
) -> bool {
    (r.nodes == with || r.nodes == without) && (r.update is None || r.update == u)
}

/// Whether every reported ring agrees with the change `update`.
fn all_agree(
    known: &Vec<(NetworkId, ActualConfig)>,
    with: &RingConfig,
    without: &RingConfig,
    update: &Option<RingUpdateConfig>,
) -> (r: bool)
    requires
        known_wf(known@),
        with.wf(),
        without.wf(),
    ensures
        r == forall|i: int|
            0 <= i < known@.len() && configured_at(known@, i) ==> agrees(
                #[trigger] ring_at(known@, i),
                with@.nodes,
                without@.nodes,
                update_view(*update),
            ),
{
    let ghost k = known@;
    let ghost u = update_view(*update);
    let mut j: usize = 0;
    while j < known.len()
        invariant
            k == known@,
            known_wf(k),
            j <= k.len(),
            with.wf(),
            without.wf(),
            u == update_view(*update),
            forall|q: int| 0 <= q < j && configured_at(k, q) ==> agrees(#[trigger] ring_at(k, q), with@.nodes, without@.nodes, u),
        decreases k.len() - j,
    {
        match &known[j].1 {
            ActualConfig::Configured(ring) => {
                assert(ring.wf());
                let ok_nodes = ring.same_nodes(with) || ring.same_nodes(without);
                let ok_update = ring.update.is_none() || same_update(&ring.update, update);
                if !(ok_nodes && ok_update) {
                    proof {
                        assert(configured_at(k, j as int));
                        assert(ring_at(k, j as int) == ring@);
                        assert(!agrees(ring_at(k, j as int), with@.nodes, without@.nodes, u));
                    }
                    return false;
                }
                proof {
                    assert(ring_at(k, j as int) == ring@);
                }
            },
            ActualConfig::Unconfigured => {},
        }
        j = j + 1;
    }
    true
}

/// The ring that the cluster agrees on: at most one node reports a change in
/// progress, and every reported ring is the same as the first one, either
/// before or after that change. The result is the ring before the change,
/// with the change.
pub open spec fn parse_spec(k: Known) -> Result<RingConfigView, ControllerError> {
    if two_updates(k) {
        Err(ControllerError::MultipleUpdates)
    } else if !any_configured(k) {
        Err(ControllerError::NoConfigs)
    } else {
        let u = reported_update(k);
        let base = ring_at(k, first_configured(k)).nodes;
        let with = after_update(base, u);
        let without = before_update(base, u);
        if forall|i: int| 0 <= i < k.len() && configured_at(k, i) ==> agrees(#[trigger] ring_at(k, i), with, without, u) {
            Ok(RingConfigView { nodes: without, update: u })
        } else {
            Err(ControllerError::Inconsistent)
        }
    }
}

/// The ring configuration that the cluster agrees on.
pub struct ClusterConfig {
    pub ring: RingConfig,
}

impl ClusterConfig {
    /// Reads the cluster's ring from what the nodes report.
    pub fn parse(known: &Vec<(NetworkId, ActualConfig)>) -> (r: Result<ClusterConfig, ControllerError>)
        requires
            known_wf(known@),
        ensures
            match r {
                Ok(cc) => cc.ring.wf() && parse_spec(known@) == Ok::<RingConfigView, ControllerError>(cc.ring@),
                Err(e) => parse_spec(known@) == Err::<RingConfigView, ControllerError>(e),
            },
    {
        let ghost k = known@;
        let mut first: Option<usize> = None;
        let mut update: Option<RingUpdateConfig> = None;
        let mut carrier: Option<usize> = None;
        let mut i: usize = 0;
        while i < known.len()
            invariant
                k == known@,
                i <= k.len(),
                first is None <==> forall|j: int| 0 <= j < i ==> !configured_at(k, j),
                first matches Some(f) ==> f < i && configured_at(k, f as int) && forall|j: int| 0 <= j < f ==> !configured_at(k, j),
                carrier is None <==> forall|j: int| 0 <= j < i ==> !carries_update(k, j),
                carrier is None ==> update is None,
                carrier matches Some(c) ==> c < i && carries_update(k, c as int) && update_view(update) == ring_at(k, c as int).update
                    && forall|j: int| 0 <= j < i && j != c ==> !carries_update(k, j),
            decreases k.len() - i,
        {
            assert(known[i as int].1 is Unconfigured ==> !configured_at(k, i as int) && !carries_update(k, i as int));
            match &known[i].1 {
                ActualConfig::Configured(ring) => {
                    assert(configured_at(k, i as int));
                    assert(ring_at(k, i as int) == ring@);
                    if first.is_none() {
                        first = Some(i);
                    }
                    if ring.update.is_some() {
                        if carrier.is_some() {
                            proof {
                                let c = carrier.unwrap() as int;
                                assert(carries_update(k, c) && carries_update(k, i as int));
                            }
                            return Err(ControllerError::MultipleUpdates);
                        }
                        assert(carries_update(k, i as int));
                        carrier = Some(i);
                        update = duplicate_update(&ring.update);
                    }
                },
                ActualConfig::Unconfigured => {},
            }
            i = i + 1;
        }
        proof {
            assert(!two_updates(k));
            if carrier is Some {
                let c = carrier.unwrap() as int;
                assert(0 <= c < k.len() && carries_update(k, c));
                let w = choose|j: int| 0 <= j < k.len() && carries_update(k, j);
                assert(w == c);
                assert(update_view(update) == reported_update(k));
            } else {
                assert(update_view(update) == reported_update(k));
            }
        }
        let f = match first {
            Some(f) => f,
            None => {
                return Err(ControllerError::NoConfigs);
            },
        };
        proof {
            assert(any_configured(k));
            let g = first_configured(k);
            assert(configured_at(k, f as int));
            assert(g == f);
        }
        let base = match &known[f].1 {
            ActualConfig::Configured(ring) => ring,
            ActualConfig::Unconfigured => {
                return Err(ControllerError::NoConfigs);
            },
        };
        assert(base.wf());
        assert(base@ == ring_at(k, first_configured(k)));
        let mut with = base.with_update(None);
        let mut without = base.with_update(None);
        match &update {
            Some(RingUpdateConfig::ToAdd { vn, ni }) => {
                without.remove_node(vn);
                with.insert_node(vn.duplicate(), ni.duplicate());
            },
            Some(RingUpdateConfig::ToRemove { vn, ni }) => {
                with.remove_node(vn);
                without.insert_node(vn.duplicate(), ni.duplicate());
            },
            None => {},
        }
        let ghost u = reported_update(k);
        assert(with@.nodes == after_update(base@.nodes, u));
        assert(without@.nodes == before_update(base@.nodes, u));
        if !all_agree(known, &with, &without, &update) {
            return Err(ControllerError::Inconsistent);
        }
        let ring = RingConfig { nodes: without.nodes, update };
        assert(ring@.nodes == without@.nodes);
        Ok(ClusterConfig { ring })
    }

    /// Takes one node's ring as the cluster's.
    pub fn parse_one(ring: &RingConfig) -> (r: Result<ClusterConfig, ControllerError>)
        requires
            ring.wf(),
        ensures
            r matches Ok(cc) && cc.ring.wf() && cc.ring@ == ring@,
    {
        Ok(ClusterConfig { ring: ring.duplicate() })
    }
}

/// The controller's next step.
pub enum ControlAction {
    /// Nothing to do.
    Nothing,
    /// No node has a ring: give every node the desired ring.
    BootstrapAll,
    /// Give the node a ring: the cluster's, with no change in progress.
    BootstrapOne(NetworkId, RingConfig),
    /// Start adding the virtual node `vn`, to belong to `ni`.
    BeginAdd(ClusterConfig, VirtualNodeId, NetworkId),
    /// Finish adding the virtual node `vn` once its old owner has drained it.
    TryFinishAdd(ClusterConfig, VirtualNodeId, NetworkId),
}

/// The first node that reports no ring.
pub open spec fn first_unconfigured(k: Known) -> int {
    choose|i: int| 0 <= i < k.len() && !configured_at(k, i) && forall|j: int| 0 <= j < i ==> configured_at(k, j)
}

pub open spec fn any_unconfigured(k: Known) -> bool {
    exists|i: int| 0 <= i < k.len() && !configured_at(k, i)
}

/// The owner of the slot of the ring of `nodes` that holds `vn`.
pub open spec fn split_owner_spec(nodes: Map<Seq<char>, Seq<char>>, vn: Seq<char>, owner: Seq<char>) -> bool {
    exists|s: Seq<crate::ring::Slot>, i: int|
        crate::ring::sorted_slots(s) && crate::ring::placed(s) && crate::ring::slot_names(s) == nodes.dom()
            && owns(s, crate::ring::vn_point(vn), i) && #[trigger] nodes[s[i].1] == owner
}

/// The plan for finishing an addition.
pub struct FinishAdd {
    /// The node that owned the split slot; it hears of the new ring last.
    pub old_owner: NetworkId,
    /// Every other known node; they hear of the new ring first.
    pub others: Vec<NetworkId>,
    /// The new ring: the added node in place, no change in progress.
    pub config: RingConfig,
}

/// What the controller knows of the cluster.
pub struct Controller {
    /// Each known node once, with the ring it reported or was last given.
    pub known: Vec<(NetworkId, ActualConfig)>,
}

/// Whether node `n` is known.
pub open spec fn is_known(k: Known, n: Seq<char>) -> bool {
    exists|q: int| 0 <= q < k.len() && k[q].0@ == n
}

pub open spec fn actual_view(a: ActualConfig) -> Option<RingConfigView> {
    match a {
        ActualConfig::Configured(r) => Some(r@),
        ActualConfig::Unconfigured => None,
    }
}

/// What is known of node `n`: absent, no ring, or a ring.
pub open spec fn entry_of(k: Known, n: Seq<char>) -> Option<Option<RingConfigView>> {
    if exists|i: int| 0 <= i < k.len() && k[i].0@ == n {
        Some(actual_view(k[choose|i: int| 0 <= i < k.len() && k[i].0@ == n].1))
    } else {
        None
    }
}

proof fn lemma_entry_at(k: Known, i: int)
    requires
        known_wf(k),
        0 <= i < k.len(),
    ensures
        entry_of(k, k[i].0@) == Some(actual_view(k[i].1)),
{
    let n = k[i].0@;
    let j = choose|j: int| 0 <= j < k.len() && k[j].0@ == n;
    if j != i {
        if j < i {
            assert(k[j].0@ != k[i].0@);
        } else {
            assert(k[i].0@ != k[j].0@);
        }
    }
}

impl Controller {
    pub open spec fn wf(&self) -> bool {
        known_wf(self.known@)
    }

    /// A controller that knows nothing yet.
    pub fn new() -> (r: Controller)
        ensures
            r.wf(),
            r.known@.len() == 0,
    {
        Controller { known: Vec::new() }
    }

    /// A virtual node of the desired ring that the cluster's ring lacks, with its owner.
    pub fn action_to_start(cc: &ClusterConfig, desired: &DesiredConfig) -> (r: Option<(VirtualNodeId, NetworkId)>)
        requires
            cc.ring.wf(),
            desired.wf(),
        ensures
            r is None <==> forall|vn: Seq<char>| #[trigger] desired.target().contains_key(vn) ==> cc.ring@.nodes.contains_key(vn),
            r matches Some((vn, ni)) ==> desired.target().contains_key(vn@) && desired.target()[vn@] == ni@
                && !cc.ring@.nodes.contains_key(vn@),
    {
        let target = desired.as_ring_config();
        proof {
            crate::config::lemma_map_of(crate::config::pair_views(target.nodes@));
        }
        let mut i: usize = 0;
        while i < target.nodes.len()
            invariant
                target.wf(),
                cc.ring.wf(),
                target@.nodes == desired.target(),
                i <= target.nodes@.len(),
                forall|j: int| 0 <= j < i ==> cc.ring@.nodes.contains_key(#[trigger] target.nodes@[j].0@),
            decreases target.nodes@.len() - i,
        {
            let (vn, ni) = &target.nodes[i];
            if !cc.ring.contains_node(vn) {
                proof {
                    crate::config::lemma_map_of(crate::config::pair_views(target.nodes@));
                    assert(crate::config::pair_views(target.nodes@)[i as int] == (vn@, ni@));
                    assert(desired.target().contains_key(vn@));
                }
                return Some((vn.duplicate(), ni.duplicate()));
            }
            i = i + 1;
        }
        proof {
            crate::config::lemma_map_of(crate::config::pair_views(target.nodes@));
            assert forall|vn: Seq<char>| #[trigger] desired.target().contains_key(vn) implies cc.ring@.nodes.contains_key(vn) by {
                let j = choose|j: int| 0 <= j < target.nodes@.len() && crate::config::pair_views(target.nodes@)[j].0 == vn;
                assert(target.nodes@[j].0@ == vn);
            }
        }
        None
    }

    /// Decides the next step from what the nodes report and the desired ring.
    pub fn action(&self, desired: &DesiredConfig) -> (r: Result<ControlAction, ControllerError>)
        requires
            self.wf(),
            desired.wf(),
        ensures
            !any_configured(self.known@) ==> r matches Ok(ControlAction::BootstrapAll),
            any_configured(self.known@) ==> match parse_spec(self.known@) {
                Err(e) => r == Err::<ControlAction, ControllerError>(e),
                Ok(c) => if any_unconfigured(self.known@) {
                    r matches Ok(ControlAction::BootstrapOne(ni, ring)) && ring.wf() && ring@ == (RingConfigView {
                        nodes: c.nodes,
                        update: None,
                    }) && ni@ == self.known@[first_unconfigured(self.known@)].0@
                } else {
                    match c.update {
                        Some(RingUpdate::ToAdd(vn, ni)) => (r matches Ok(ControlAction::TryFinishAdd(cc, v, n))
                            && cc.ring.wf() && cc.ring@ == c && v@ == vn && n@ == ni),
                        Some(RingUpdate::ToRemove(_, _)) => r == Err::<ControlAction, ControllerError>(
                            ControllerError::UnsupportedUpdate,
                        ),
                        None => if forall|vn: Seq<char>| #[trigger] desired.target().contains_key(vn) ==> c.nodes.contains_key(vn) {
                            r matches Ok(ControlAction::Nothing)
                        } else {
                            r matches Ok(ControlAction::BeginAdd(cc, v, n)) && cc.ring.wf() && cc.ring@ == c
                                && desired.target().contains_key(v@) && desired.target()[v@] == n@
                                && !c.nodes.contains_key(v@)
                        },
                    }
                },
            },
    {
        let ghost k = self.known@;
        let mut any_cf = false;
        let mut unconf: Option<usize> = None;
        let mut i: usize = 0;
        while i < self.known.len()
            invariant
                k == self.known@,
                i <= k.len(),
                any_cf == exists|j: int| 0 <= j < i && configured_at(k, j),
                unconf is None <==> forall|j: int| 0 <= j < i ==> configured_at(k, j),
                unconf matches Some(u) ==> u < i && !configured_at(k, u as int) && forall|j: int| 0 <= j < u ==> configured_at(k, j),
            decreases k.len() - i,
        {
            assert(self.known@[i as int].1 is Unconfigured ==> !configured_at(k, i as int));
            if self.known[i].1.is_configured() {
                assert(configured_at(k, i as int));
                any_cf = true;
            } else if unconf.is_none() {
                assert(!configured_at(k, i as int));
                unconf = Some(i);
            }
            i = i + 1;
        }
        if !any_cf {
            return Ok(ControlAction::BootstrapAll);
        }
        let cc = match ClusterConfig::parse(&self.known) {
            Ok(cc) => cc,
            Err(e) => {
                return Err(e);
            },
        };
        if let Some(u) = unconf {
            proof {
                let f = first_unconfigured(k);
                assert(0 <= u < k.len() && !configured_at(k, u as int));
                assert(f == u);
            }
            let ring = cc.ring.with_update(None);
            return Ok(ControlAction::BootstrapOne(self.known[u].0.duplicate(), ring));
        }
        assert(!any_unconfigured(k));
        match &cc.ring.update {
            Some(RingUpdateConfig::ToAdd { vn, ni }) => {
                let v = vn.duplicate();
                let n = ni.duplicate();
                return Ok(ControlAction::TryFinishAdd(cc, v, n));
            },
            Some(RingUpdateConfig::ToRemove { .. }) => {
                return Err(ControllerError::UnsupportedUpdate);
            },
            None => {},
        }
        match Controller::action_to_start(&cc, desired) {
            Some((vn, ni)) => Ok(ControlAction::BeginAdd(cc, vn, ni)),
            None => Ok(ControlAction::Nothing),
        }
    }

    /// The network node that owns the slot of the cluster's ring that `vn` falls in.
    pub fn split_owner(cc: &ClusterConfig, vn: &VirtualNodeId) -> (r: Result<NetworkId, ControllerError>)
        requires
            cc.ring.wf(),
        ensures
            r is Err <==> cc.ring@.nodes.dom().len() == 0,
            r matches Err(e) ==> e == ControllerError::MissingOwner,
            r matches Ok(ni) ==> split_owner_spec(cc.ring@.nodes, vn@, ni@),
    {
        let ring = HashRing::from_config(&cc.ring);
        if ring.len() == 0 {
            return Err(ControllerError::MissingOwner);
        }
        let cursor = ring.cursor(vn);
        let old_vn = cursor.get();
        proof {
            let s = ring@;
            let i = cursor@.1;
            assert(crate::ring::slot_names(s).contains(s[i].1));
        }
        match cc.ring.network_id(old_vn) {
            Some(ni) => {
                proof {
                    let s = ring@;
                    let i = cursor@.1;
                    assert(cc.ring@.nodes[s[i].1] == ni@);
                }
                Ok(ni.duplicate())
            },
            None => Err(ControllerError::MissingOwner),
        }
    }

    /// The step that starts adding `vn`: the owner of the slot it splits gets
    /// the cluster's ring with the addition in progress.
    pub fn begin_add_plan(cc: &ClusterConfig, vn: &VirtualNodeId, ni: &NetworkId) -> (r: Result<(NetworkId, RingConfig), ControllerError>)
        requires
            cc.ring.wf(),
        ensures
            r is Err <==> cc.ring@.nodes.dom().len() == 0,
            r matches Ok((to, cf)) ==> split_owner_spec(cc.ring@.nodes, vn@, to@) && cf.wf()
                && cf@ == (RingConfigView { nodes: cc.ring@.nodes, update: Some(RingUpdate::ToAdd(vn@, ni@)) }),
    {
        let to = match Controller::split_owner(cc, vn) {
            Ok(to) => to,
            Err(e) => {
                return Err(e);
            },
        };
        let cf = cc.ring.with_update(Some(RingUpdateConfig::ToAdd { vn: vn.duplicate(), ni: ni.duplicate() }));
        Ok((to, cf))
    }

    /// The step that finishes adding `vn` to belong to `ni`: the new ring
    /// goes to every other known node first and to the old owner last.
    pub fn finish_add_plan(&self, cc: &ClusterConfig, vn: &VirtualNodeId, ni: &NetworkId) -> (r: Result<FinishAdd, ControllerError>)
        requires
            self.wf(),
            cc.ring.wf(),
        ensures
            r is Err <==> cc.ring@.nodes.dom().len() == 0,
            r matches Ok(p) ==> split_owner_spec(cc.ring@.nodes, vn@, p.old_owner@) && p.config.wf()
                && p.config@ == (RingConfigView { nodes: cc.ring@.nodes.insert(vn@, ni@), update: None }),
            r matches Ok(p) ==> forall|j: int| 0 <= j < p.others@.len() ==> (#[trigger] p.others@[j])@ != p.old_owner@,
            r matches Ok(p) ==> forall|j: int| 0 <= j < p.others@.len() ==> is_known(self.known@, (#[trigger] p.others@[j])@),
            r matches Ok(p) ==> forall|q: int| 0 <= q < self.known@.len() && (#[trigger] self.known@[q]).0@ != p.old_owner@ ==> net_names(p.others@).contains(self.known@[q].0@),
    {
        let old_owner = match Controller::split_owner(cc, vn) {
            Ok(to) => to,
            Err(e) => {
                return Err(e);
            },
        };
        let mut config = cc.ring.with_update(None);
        config.insert_node(vn.duplicate(), ni.duplicate());
        let mut others: Vec<NetworkId> = Vec::new();
        let mut i: usize = 0;
        while i < self.known.len()
            invariant
                i <= self.known@.len(),
                config.wf(),
                config@ == (RingConfigView { nodes: cc.ring@.nodes.insert(vn@, ni@), update: None }),
                split_owner_spec(cc.ring@.nodes, vn@, old_owner@),
                forall|j: int| 0 <= j < others@.len() ==> #[trigger] others@[j]@ != old_owner@,
                forall|j: int| 0 <= j < others@.len() ==> is_known(self.known@, (#[trigger] others@[j])@),
                forall|q: int| 0 <= q < i && (#[trigger] self.known@[q]).0@ != old_owner@ ==> net_names(others@).contains(self.known@[q].0@),
            decreases self.known@.len() - i,
        {
            let n = &self.known[i].0;
            if !n.same(&old_owner) {
                let ghost before = others@;
                others.push(n.duplicate());
                proof {
                    assert(others@[others@.len() - 1]@ == self.known@[i as int].0@);
                    assert forall|q: int| 0 <= q < i + 1 && (#[trigger] self.known@[q]).0@ != old_owner@ implies net_names(others@).contains(self.known@[q].0@) by {
                        if q < i {
                            assert(net_names(before).contains(self.known@[q].0@));
                            let j = choose|j: int| 0 <= j < before.len() && before[j]@ == self.known@[q].0@;
                            assert(others@[j] == before[j]);
                        } else {
                            assert(others@[others@.len() - 1]@ == self.known@[q].0@);
                        }
                    }
                    assert forall|j: int| 0 <= j < others@.len() implies is_known(self.known@, (#[trigger] others@[j])@) by {
                        if j < before.len() {
                            assert(others@[j] == before[j]);
                        } else {
                            assert(self.known@[i as int].0@ == others@[j]@);
                        }
                    }
                }
            }
            i = i + 1;
        }
        Ok(FinishAdd { old_owner, others, config })
    }
}

impl Controller {
    fn find(&self, n: &NetworkId) -> (r: Option<usize>)
        ensures
            r is None <==> !is_known(self.known@, n@),
            r matches Some(i) ==> i < self.known@.len() && self.known@[i as int].0@ == n@,
    {
        let mut i: usize = 0;
        while i < self.known.len()
            invariant
                i <= self.known@.len(),
                forall|j: int| 0 <= j < i ==> (#[trigger] self.known@[j]).0@ != n@,
            decreases self.known@.len() - i,
        {
            if self.known[i].0.same(n) {
                return Some(i);
            }
            i = i + 1;
        }
        None
    }

    /// Whether `cf` has to be sent to `to`: it has, unless `to` is known to hold it.
    pub fn push_needed(&self, to: &NetworkId, cf: &RingConfig) -> (r: bool)
        requires
            self.wf(),
            cf.wf(),
        ensures
            r == (entry_of(self.known@, to@) != Some(Some(cf@))),
    {
        match self.find(to) {
            Some(i) => {
                proof {
                    lemma_entry_at(self.known@, i as int);
                }
                match &self.known[i].1 {
                    ActualConfig::Configured(c) => !c.same_config(cf),
                    ActualConfig::Unconfigured => true,
                }
            },
            None => true,
        }
    }

    /// Sets what is known of `to`.
    fn set_entry(&mut self, to: &NetworkId, actual: ActualConfig)
        requires
            old(self).wf(),
            actual matches ActualConfig::Configured(r) ==> r.wf(),
        ensures
            final(self).wf(),
            entry_of(final(self).known@, to@) == Some(actual_view(actual)),
            forall|n: Seq<char>| n != to@ ==> #[trigger] entry_of(final(self).known@, n) == entry_of(old(self).known@, n),
    {
        let ghost k0 = self.known@;
        let ghost av = actual_view(actual);
        match self.find(to) {
            Some(i) => {
                self.known.set(i, (to.duplicate(), actual));
                proof {
                    let k1 = self.known@;
                    assert forall|a: int, b: int| 0 <= a < b < k1.len() implies k1[a].0@ != k1[b].0@ by {
                        assert(k1[a].0@ == k0[a].0@);
                        assert(k1[b].0@ == k0[b].0@);
                    }
                    assert forall|q: int| 0 <= q < k1.len() implies (#[trigger] k1[q].1 matches ActualConfig::Configured(r) ==> r.wf()) by {
                        if q != i {
                            assert(k1[q] == k0[q]);
                        }
                    }
                    lemma_entry_at(k1, i as int);
                    assert forall|n: Seq<char>| n != to@ implies #[trigger] entry_of(k1, n) == entry_of(k0, n) by {
                        if is_known(k0, n) {
                            let j = choose|j: int| 0 <= j < k0.len() && k0[j].0@ == n;
                            assert(k1[j] == k0[j]);
                            lemma_entry_at(k0, j);
                            lemma_entry_at(k1, j);
                        } else if is_known(k1, n) {
                            let j = choose|j: int| 0 <= j < k1.len() && k1[j].0@ == n;
                            assert(k1[j] == k0[j]);
                        }
                    }
                }
            },
            None => {
                self.known.push((to.duplicate(), actual));
                proof {
                    let k1 = self.known@;
                    let i = k0.len() as int;
                    assert forall|a: int, b: int| 0 <= a < b < k1.len() implies k1[a].0@ != k1[b].0@ by {
                        assert(k1[a] == k0[a] || a == i);
                        if b == i {
                            assert(k1[a] == k0[a]);
                        } else {
                            assert(k1[a] == k0[a] && k1[b] == k0[b]);
                        }
                    }
                    assert forall|q: int| 0 <= q < k1.len() implies (#[trigger] k1[q].1 matches ActualConfig::Configured(r) ==> r.wf()) by {
                        if q != i {
                            assert(k1[q] == k0[q]);
                        }
                    }
                    lemma_entry_at(k1, i);
                    assert forall|n: Seq<char>| n != to@ implies #[trigger] entry_of(k1, n) == entry_of(k0, n) by {
                        if is_known(k0, n) {
                            let j = choose|j: int| 0 <= j < k0.len() && k0[j].0@ == n;
                            assert(k1[j] == k0[j]);
                            lemma_entry_at(k0, j);
                            lemma_entry_at(k1, j);
                        } else if is_known(k1, n) {
                            let j = choose|j: int| 0 <= j < k1.len() && k1[j].0@ == n;
                            assert(k1[j] == k0[j]);
                        }
                    }
                }
            },
        }
    }

    /// Forgets what is known of `to`.
    fn forget(&mut self, to: &NetworkId)
        requires
            old(self).wf(),
        ensures
            final(self).wf(),
            entry_of(final(self).known@, to@) is None,
            forall|n: Seq<char>| n != to@ ==> #[trigger] entry_of(final(self).known@, n) == entry_of(old(self).known@, n),
    {
        let ghost k0 = self.known@;
        match self.find(to) {
            Some(i) => {
                self.known.remove(i);
                proof {
                    let k1 = self.known@;
                    assert(k1 =~= k0.remove(i as int));
                    assert forall|q: int| 0 <= q < k1.len() implies #[trigger] k1[q] == k0[if q < i { q } else { q + 1 }] by {}
                    assert forall|a: int, b: int| 0 <= a < b < k1.len() implies k1[a].0@ != k1[b].0@ by {
                        assert(k1[a] == k0[if a < i { a } else { a + 1 }]);
                        assert(k1[b] == k0[if b < i { b } else { b + 1 }]);
                    }
                    assert forall|q: int| 0 <= q < k1.len() implies (#[trigger] k1[q].1 matches ActualConfig::Configured(r) ==> r.wf()) by {
                        assert(k1[q] == k0[if q < i { q } else { q + 1 }]);
                    }
                    if is_known(k1, to@) {
                        let j = choose|j: int| 0 <= j < k1.len() && k1[j].0@ == to@;
                        let j0 = if j < i { j } else { j + 1 };
                        assert(k1[j] == k0[j0]);
                        assert(k0[j0].0@ == k0[i as int].0@);
                    }
                    assert forall|n: Seq<char>| n != to@ implies #[trigger] entry_of(k1, n) == entry_of(k0, n) by {
                        if is_known(k0, n) {
                            let j = choose|j: int| 0 <= j < k0.len() && k0[j].0@ == n;
                            let j1 = if j < i { j } else { j - 1 };
                            assert(j != i);
                            assert(k1[j1] == k0[j]);
                            lemma_entry_at(k0, j);
                            lemma_entry_at(k1, j1);
                        } else if is_known(k1, n) {
                            let j = choose|j: int| 0 <= j < k1.len() && k1[j].0@ == n;
                            let j0 = if j < i { j } else { j + 1 };
                            assert(k1[j] == k0[j0]);
                        }
                    }
                }
            },
            None => {},
        }
    }

    /// Records the outcome of sending `cf` to `to`: on success `to` holds
    /// `cf`; on failure what was known of `to` is forgotten.
    pub fn record_push(&mut self, to: &NetworkId, cf: RingConfig, ok: bool)
        requires
            old(self).wf(),
            cf.wf(),
        ensures
            final(self).wf(),
            ok ==> entry_of(final(self).known@, to@) == Some(Some(cf@)),
            !ok ==> entry_of(final(self).known@, to@) is None,
            forall|n: Seq<char>| n != to@ ==> #[trigger] entry_of(final(self).known@, n) == entry_of(old(self).known@, n),
    {
        if ok {
            self.set_entry(to, ActualConfig::Configured(cf));
        } else {
            self.forget(to);
        }
    }

    /// Records the ring that `router` reported, if any.
    pub fn record_fetched(&mut self, router: &NetworkId, ring: Option<RingConfig>)
        requires
            old(self).wf(),
            ring matches Some(r) ==> r.wf(),
        ensures
            final(self).wf(),
            entry_of(final(self).known@, router@) == Some(match ring {
                Some(r) => Some(r@),
                None => None::<RingConfigView>,
            }),
            forall|n: Seq<char>| n != router@ ==> #[trigger] entry_of(final(self).known@, n) == entry_of(old(self).known@, n),
    {
        let actual = match ring {
            Some(r) => ActualConfig::Configured(r),
            None => ActualConfig::Unconfigured,
        };
        self.set_entry(router, actual);
    }

    /// The members of the desired ring whose ring is not known yet.
    pub fn routers_to_fetch(&self, desired: &DesiredConfig) -> (r: Vec<NetworkId>)
        ensures
            forall|j: int| 0 <= j < r@.len() ==> desired.members().contains((#[trigger] r@[j])@) && !is_known(self.known@, r@[j]@),
            forall|n: Seq<char>| #[trigger] desired.members().contains(n) && !is_known(self.known@, n) ==> net_names(r@).contains(n),
    {
        let mut out: Vec<NetworkId> = Vec::new();
        let mut i: usize = 0;
        while i < desired.weight.len()
            invariant
                i <= desired.weight@.len(),
                forall|j: int| 0 <= j < out@.len() ==> desired.members().contains((#[trigger] out@[j])@) && !is_known(self.known@, out@[j]@),
                forall|q: int| 0 <= q < i && !is_known(self.known@, (#[trigger] desired.weight@[q]).0@) ==> net_names(out@).contains(desired.weight@[q].0@),
            decreases desired.weight@.len() - i,
        {
            let n = &desired.weight[i].0;
            if self.find(n).is_none() {
                let ghost before = out@;
                out.push(n.duplicate());
                proof {
                    assert(out@[out@.len() - 1]@ == desired.weight@[i as int].0@);
                    assert(desired.members().contains(desired.weight@[i as int].0@));
                    assert forall|q: int| 0 <= q < i + 1 && !is_known(self.known@, (#[trigger] desired.weight@[q]).0@) implies net_names(out@).contains(desired.weight@[q].0@) by {
                        if q < i {
                            assert(net_names(before).contains(desired.weight@[q].0@));
                            let j = choose|j: int| 0 <= j < before.len() && before[j]@ == desired.weight@[q].0@;
                            assert(out@[j] == before[j]);
                        } else {
                            assert(out@[out@.len() - 1]@ == desired.weight@[q].0@);
                        }
                    }
                    assert forall|j: int| 0 <= j < out@.len() implies desired.members().contains((#[trigger] out@[j])@) && !is_known(self.known@, out@[j]@) by {
                        if j < before.len() {
                            assert(out@[j] == before[j]);
                        }
                    }
                }
            }
            i = i + 1;
        }
        proof {
            assert forall|n: Seq<char>| #[trigger] desired.members().contains(n) && !is_known(self.known@, n) implies net_names(out@).contains(n) by {
                let q = choose|q: int| 0 <= q < desired.weight@.len() && desired.weight@[q].0@ == n;
                assert(!is_known(self.known@, desired.weight@[q].0@));
            }
        }
        out
    }
}

} // verus!
