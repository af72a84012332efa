//! Ring configurations: which network node each virtual node belongs to, and
//! the one change to the ring that may be in progress.
use vstd::prelude::*;
use crate::ring::{HashRing, VirtualNodeId, id_names};

verus! {

/// A stable network ID. Each physical node has exactly one of these.
#[derive(Debug, Clone, PartialEq, Eq, Hash, PartialOrd, Ord)]
pub struct NetworkId(pub String);

impl View for NetworkId {
    type V = Seq<char>;

    open spec fn view(&self) -> Seq<char> {
        self.0@
    }
}

impl NetworkId {
    /// Whether the two IDs name the same node.
    pub fn same(&self, other: &NetworkId) -> (r: bool)
        ensures
            r == (self@ == other@),
    {
        self.0 == other.0
    }

    /// A copy of this ID.
    pub fn duplicate(&self) -> (r: NetworkId)
        ensures
            r@ == self@,
    {
        NetworkId(self.0.clone())
    }
}

/// The abstract form of a ring change.
pub enum RingUpdate {
    ToAdd(Seq<char>, Seq<char>),
    ToRemove(Seq<char>, Seq<char>),
}

/// An in-progress change to the ring: a virtual node to add or to remove,
/// with the network node that owns it once the change is done.
#[derive(Debug, Clone, PartialEq, Eq)]
pub enum RingUpdateConfig {
    ToAdd { vn: VirtualNodeId, ni: NetworkId },
    ToRemove { vn: VirtualNodeId, ni: NetworkId },
}

impl View for RingUpdateConfig {
    type V = RingUpdate;

    open spec fn view(&self) -> RingUpdate {
        match self {
            RingUpdateConfig::ToAdd { vn, ni } => RingUpdate::ToAdd(vn@, ni@),
            RingUpdateConfig::ToRemove { vn, ni } => RingUpdate::ToRemove(vn@, ni@),
        }
    }
}

impl RingUpdateConfig {
    /// A copy of this update.
    pub fn duplicate(&self) -> (r: RingUpdateConfig)
        ensures
            r@ == self@,
    {
        match self {
            RingUpdateConfig::ToAdd { vn, ni } => RingUpdateConfig::ToAdd {
                vn: vn.duplicate(),
                ni: ni.duplicate(),
            },
            RingUpdateConfig::ToRemove { vn, ni } => RingUpdateConfig::ToRemove {
                vn: vn.duplicate(),
                ni: ni.duplicate(),
            },
        }
    }
}

pub open spec fn update_view(u: Option<RingUpdateConfig>) -> Option<RingUpdate> {
    match u {
        Some(x) => Some(x@),
        None => None,
    }
}

/// Whether two optional updates are the same.
pub fn same_update(a: &Option<RingUpdateConfig>, b: &Option<RingUpdateConfig>) -> (r: bool)
    ensures
        r == (update_view(*a) == update_view(*b)),
{
    match (a, b) {
        (None, None) => true,
        (Some(RingUpdateConfig::ToAdd { vn: v1, ni: n1 }), Some(RingUpdateConfig::ToAdd { vn: v2, ni: n2 })) => {
            v1.same(v2) && n1.same(n2)
        },
        (Some(RingUpdateConfig::ToRemove { vn: v1, ni: n1 }), Some(RingUpdateConfig::ToRemove { vn: v2, ni: n2 })) => {
            v1.same(v2) && n1.same(n2)
        },
        _ => false,
    }
}

/// Copies an optional update.
pub fn duplicate_update(u: &Option<RingUpdateConfig>) -> (r: Option<RingUpdateConfig>)
    ensures
        update_view(r) == update_view(*u),
{
    match u {
        Some(x) => Some(x.duplicate()),
        None => None,
    }
}

/// The abstract form of a ring configuration.
pub struct RingConfigView {
    pub nodes: Map<Seq<char>, Seq<char>>,
    pub update: Option<RingUpdate>,
}

pub open spec fn pair_views(s: Seq<(VirtualNodeId, NetworkId)>) -> Seq<(Seq<char>, Seq<char>)> {
    s.map_values(|e: (VirtualNodeId, NetworkId)| (e.0@, e.1@))
}

pub open spec fn keys_unique(s: Seq<(Seq<char>, Seq<char>)>) -> bool {
    forall|i: int, j: int| 0 <= i < j < s.len() ==> s[i].0 != s[j].0
}

/// The map that a list of pairs stands for.
pub open spec fn map_of(s: Seq<(Seq<char>, Seq<char>)>) -> Map<Seq<char>, Seq<char>>
    decreases s.len(),
{
    if s.len() == 0 {
        Map::empty()
    } else {
        map_of(s.drop_last()).insert(s.last().0, s.last().1)
    }
}

pub proof fn lemma_map_of(s: Seq<(Seq<char>, Seq<char>)>)
    requires
        keys_unique(s),
    ensures
        forall|k: Seq<char>|
            #[trigger] map_of(s).contains_key(k) <==> exists|i: int| 0 <= i < s.len() && s[i].0 == k,
        forall|i: int| 0 <= i < s.len() ==> #[trigger] map_of(s)[s[i].0] == s[i].1,
        map_of(s).dom().finite(),
        map_of(s).dom().len() == s.len(),
    decreases s.len(),
{
    if s.len() > 0 {
        let t = s.drop_last();
        lemma_map_of(t);
        assert forall|k: Seq<char>| #[trigger] map_of(s).contains_key(k) <==> exists|i: int|
            0 <= i < s.len() && s[i].0 == k by {
            if map_of(s).contains_key(k) && k != s.last().0 {
                let i = choose|i: int| 0 <= i < t.len() && t[i].0 == k;
                assert(s[i].0 == k);
            }
            if exists|i: int| 0 <= i < s.len() && s[i].0 == k {
                let i = choose|i: int| 0 <= i < s.len() && s[i].0 == k;
                if i < t.len() {
                    assert(t[i].0 == k);
                }
            }
        }
        assert forall|i: int| 0 <= i < s.len() implies #[trigger] map_of(s)[s[i].0] == s[i].1 by {
            if i < t.len() {
                assert(t[i] == s[i]);
                assert(s[i].0 != s.last().0);
            }
        }
        assert(!map_of(t).contains_key(s.last().0)) by {
            if map_of(t).contains_key(s.last().0) {
                let i = choose|i: int| 0 <= i < t.len() && t[i].0 == s.last().0;
                assert(s[i].0 == s[s.len() - 1].0);
            }
        }
    }
}

/// A full configuration of a consistent hash ring.
#[derive(Debug, Clone, PartialEq, Eq)]
pub struct RingConfig {
    /// Virtual node IDs and the network IDs they belong to; each virtual node
    /// is listed once. The ring itself is implied by the digests of the
    /// virtual nodes.
    pub nodes: Vec<(VirtualNodeId, NetworkId)>,
    /// In-progress modification.
    pub update: Option<RingUpdateConfig>,
}

impl View for RingConfig {
    type V = RingConfigView;

    open spec fn view(&self) -> RingConfigView {
        RingConfigView { nodes: map_of(pair_views(self.nodes@)), update: update_view(self.update) }
    }
}

impl RingConfig {
    /// Each virtual node is listed once.
    pub open spec fn wf(&self) -> bool {
        keys_unique(pair_views(self.nodes@))
    }

    /// Whether each virtual node is listed once.
    pub fn check_wf(&self) -> (r: bool)
        ensures
            r == self.wf(),
    {
        let n = self.nodes.len();
        let mut i: usize = 0;
        while i < n
            invariant
                n == self.nodes@.len(),
                i <= n,
                forall|a: int, b: int| 0 <= a < b < n && a < i ==> self.nodes@[a].0@ != self.nodes@[b].0@,
            decreases n - i,
        {
            let mut j: usize = i + 1;
            while j < n
                invariant
                    n == self.nodes@.len(),
                    i < n,
                    i + 1 <= j <= n,
                    forall|b: int| i < b < j ==> self.nodes@[i as int].0@ != self.nodes@[b].0@,
                decreases n - j,
            {
                if self.nodes[i].0.same(&self.nodes[j].0) {
                    proof {
                        assert(pair_views(self.nodes@)[i as int].0 == pair_views(self.nodes@)[j as int].0);
                    }
                    return false;
                }
                j = j + 1;
            }
            i = i + 1;
        }
        proof {
            assert forall|a: int, b: int| 0 <= a < b < n implies pair_views(self.nodes@)[a].0 != pair_views(self.nodes@)[b].0 by {
                assert(self.nodes@[a].0@ != self.nodes@[b].0@);
            }
        }
        true
    }

    /// A configuration with no nodes and no update.
    pub fn empty() -> (r: RingConfig)
        ensures
            r.wf(),
            r@.nodes == Map::<Seq<char>, Seq<char>>::empty(),
            r@.update.is_none(),
    {
        let r = RingConfig { nodes: Vec::new(), update: None };
        assert(pair_views(r.nodes@) =~= Seq::empty());
        r
    }

    /// A configuration of one virtual node, named like the one network node it belongs to.
    pub fn singleton(node: &str) -> (r: RingConfig)
        ensures
            r.wf(),
            r@.nodes == Map::<Seq<char>, Seq<char>>::empty().insert(node@, node@),
            r@.update.is_none(),
    {
        let mut r = RingConfig::empty();
        r.insert_node(VirtualNodeId(node.to_owned()), NetworkId(node.to_owned()));
        r
    }

    /// Where the virtual node `vn` is listed.
    fn find(&self, vn: &VirtualNodeId) -> (r: Option<usize>)
        requires
            self.wf(),
        ensures
            r.is_none() <==> !self@.nodes.contains_key(vn@),
            r matches Some(i) ==> i < self.nodes@.len() && self.nodes@[i as int].0@ == vn@,
    {
        proof {
            lemma_map_of(pair_views(self.nodes@));
        }
        let mut i: usize = 0;
        while i < self.nodes.len()
            invariant
                self.wf(),
                i <= self.nodes@.len(),
                forall|j: int| 0 <= j < i ==> self.nodes@[j].0@ != vn@,
            decreases self.nodes@.len() - i,
        {
            if self.nodes[i].0.same(vn) {
                proof {
                    lemma_map_of(pair_views(self.nodes@));
                    assert(pair_views(self.nodes@)[i as int].0 == vn@);
                }
                return Some(i);
            }
            i = i + 1;
        }
        proof {
            lemma_map_of(pair_views(self.nodes@));
            if self@.nodes.contains_key(vn@) {
                let j = choose|j: int| 0 <= j < self.nodes@.len() && pair_views(self.nodes@)[j].0 == vn@;
                assert(self.nodes@[j].0@ == vn@);
            }
        }
        None
    }

    /// The network ID of the virtual node `vn`, if it is on the ring.
    pub fn network_id(&self, vn: &VirtualNodeId) -> (r: Option<&NetworkId>)
        requires
            self.wf(),
        ensures
            r.is_some() == self@.nodes.contains_key(vn@),
            r matches Some(ni) ==> ni@ == self@.nodes[vn@],
    {
        proof {
            lemma_map_of(pair_views(self.nodes@));
        }
        match self.find(vn) {
            Some(i) => {
                assert(pair_views(self.nodes@)[i as int].0 == vn@);
                Some(&self.nodes[i].1)
            },
            None => None,
        }
    }

    /// Whether the virtual node `vn` is on the ring.
    pub fn contains_node(&self, vn: &VirtualNodeId) -> (r: bool)
        requires
            self.wf(),
        ensures
            r == self@.nodes.contains_key(vn@),
    {
        self.find(vn).is_some()
    }

    /// Puts `vn` on the ring as belonging to `ni`, replacing its earlier owner.
    pub fn insert_node(&mut self, vn: VirtualNodeId, ni: NetworkId)
        requires
            old(self).wf(),
        ensures
            final(self).wf(),
            final(self)@.nodes == old(self)@.nodes.insert(vn@, ni@),
            final(self)@.update == old(self)@.update,
    {
        let ghost old_s = pair_views(self.nodes@);
        proof {
            lemma_map_of(old_s);
        }
        match self.find(&vn) {
            Some(i) => {
                self.nodes.set(i, (vn, ni));
                proof {
                    let s = pair_views(self.nodes@);
                    assert(s =~= old_s.update(i as int, (vn@, ni@)));
                    assert(old_s[i as int].0 == vn@);
                    assert forall|a: int| 0 <= a < s.len() implies #[trigger] s[a].0 == old_s[a].0 by {}
                    assert forall|a: int, b: int| 0 <= a < b < s.len() implies s[a].0 != s[b].0 by {
                        assert(s[a].0 == old_s[a].0);
                        assert(s[b].0 == old_s[b].0);
                    }
                    lemma_map_of(s);
                    assert(map_of(s) =~= map_of(old_s).insert(vn@, ni@)) by {
                        assert forall|k: Seq<char>| #[trigger] map_of(s).contains_key(k) implies map_of(old_s).insert(vn@, ni@).contains_key(k) by {
                            let j = choose|j: int| 0 <= j < s.len() && s[j].0 == k;
                            if j != i {
                                assert(old_s[j].0 == k);
                            }
                        }
                        assert forall|k: Seq<char>| #[trigger] map_of(old_s).insert(vn@, ni@).contains_key(k) implies map_of(s).contains_key(k) by {
                            if k != vn@ {
                                let j = choose|j: int| 0 <= j < old_s.len() && old_s[j].0 == k;
                                assert(s[j].0 == k);
                            } else {
                                assert(s[i as int].0 == k);
                            }
                        }
                        assert forall|k: Seq<char>| #[trigger] map_of(s).contains_key(k) implies map_of(s)[k] == map_of(old_s).insert(vn@, ni@)[k] by {
                            let j = choose|j: int| 0 <= j < s.len() && s[j].0 == k;
                            assert(map_of(s)[s[j].0] == s[j].1);
                            if j != i {
                                assert(old_s[j] == s[j]);
                                assert(map_of(old_s)[old_s[j].0] == old_s[j].1);
                                assert(old_s[j].0 != old_s[i as int].0);
                            }
                        }
                    }
                }
            },
            None => {
                self.nodes.push((vn, ni));
                proof {
                    let s = pair_views(self.nodes@);
                    assert(s =~= old_s.push((vn@, ni@)));
                    assert(s.drop_last() =~= old_s);
                    assert forall|i: int, j: int| 0 <= i < j < s.len() implies s[i].0 != s[j].0 by {
                        if j == s.len() - 1 {
                            assert(old_s[i].0 == s[i].0);
                            assert(map_of(old_s).contains_key(old_s[i].0));
                        }
                    }
                }
            },
        }
    }

    /// Takes `vn` off the ring.
    pub fn remove_node(&mut self, vn: &VirtualNodeId)
        requires
            old(self).wf(),
        ensures
            final(self).wf(),
            final(self)@.nodes == old(self)@.nodes.remove(vn@),
            final(self)@.update == old(self)@.update,
    {
        let ghost old_s = pair_views(self.nodes@);
        proof {
            lemma_map_of(old_s);
        }
        match self.find(vn) {
            Some(i) => {
                self.nodes.remove(i);
                proof {
                    let s = pair_views(self.nodes@);
                    assert(s =~= old_s.remove(i as int));
                    assert forall|a: int, b: int| 0 <= a < b < s.len() implies s[a].0 != s[b].0 by {
                        let a0 = if a < i { a } else { a + 1 };
                        let b0 = if b < i { b } else { b + 1 };
                        assert(s[a] == old_s[a0]);
                        assert(s[b] == old_s[b0]);
                    }
                    lemma_map_of(s);
                    assert(old_s[i as int].0 == vn@);
                    assert(map_of(s) =~= map_of(old_s).remove(vn@)) by {
                        assert forall|k: Seq<char>| #[trigger] map_of(s).contains_key(k) implies map_of(old_s).remove(vn@).contains_key(k) by {
                            let j = choose|j: int| 0 <= j < s.len() && s[j].0 == k;
                            let j0 = if j < i { j } else { j + 1 };
                            assert(old_s[j0] == s[j]);
                        }
                        assert forall|k: Seq<char>| #[trigger] map_of(old_s).remove(vn@).contains_key(k) implies map_of(s).contains_key(k) by {
                            let j = choose|j: int| 0 <= j < old_s.len() && old_s[j].0 == k;
                            let j1 = if j < i { j } else { j - 1 };
                            assert(s[j1] == old_s[j]);
                        }
                        assert forall|k: Seq<char>| #[trigger] map_of(s).contains_key(k) implies map_of(s)[k] == map_of(old_s).remove(vn@)[k] by {
                            let j = choose|j: int| 0 <= j < s.len() && s[j].0 == k;
                            let j0 = if j < i { j } else { j + 1 };
                            assert(old_s[j0] == s[j]);
                        }
                    }
                }
            },
            None => {
                assert(map_of(old_s) =~= map_of(old_s).remove(vn@));
            },
        }
    }

    /// Whether every entry of this configuration's nodes is also one of `other`'s.
    fn nodes_within(&self, other: &RingConfig) -> (r: bool)
        requires
            self.wf(),
            other.wf(),
        ensures
            r == self@.nodes.submap_of(other@.nodes),
    {
        proof {
            lemma_map_of(pair_views(self.nodes@));
        }
        let mut i: usize = 0;
        while i < self.nodes.len()
            invariant
                self.wf(),
                other.wf(),
                i <= self.nodes@.len(),
                forall|j: int|
                    0 <= j < i ==> #[trigger] other@.nodes.contains_key(self.nodes@[j].0@)
                        && other@.nodes[self.nodes@[j].0@] == self.nodes@[j].1@,
            decreases self.nodes@.len() - i,
        {
            let (vn, ni) = &self.nodes[i];
            match other.network_id(vn) {
                Some(x) => {
                    if !x.same(ni) {
                        proof {
                            lemma_map_of(pair_views(self.nodes@));
                            assert(pair_views(self.nodes@)[i as int] == (vn@, ni@));
                            assert(self@.nodes.contains_key(vn@));
                            assert(self@.nodes[vn@] == ni@);
                            assert(self@.nodes.dom().contains(vn@));
                        }
                        return false;
                    }
                },
                None => {
                    proof {
                        lemma_map_of(pair_views(self.nodes@));
                        assert(pair_views(self.nodes@)[i as int] == (vn@, ni@));
                        assert(self@.nodes.contains_key(vn@));
                        assert(self@.nodes.dom().contains(vn@));
                    }
                    return false;
                },
            }
            i = i + 1;
        }
        proof {
            lemma_map_of(pair_views(self.nodes@));
            assert forall|k: Seq<char>| #[trigger] self@.nodes.contains_key(k) implies other@.nodes.contains_key(k) && other@.nodes[k] == self@.nodes[k] by {
                let j = choose|j: int| 0 <= j < self.nodes@.len() && pair_views(self.nodes@)[j].0 == k;
                assert(pair_views(self.nodes@)[j] == (self.nodes@[j].0@, self.nodes@[j].1@));
            }
        }
        true
    }

    /// Whether the two configurations map the same virtual nodes to the same network nodes.
    pub fn same_nodes(&self, other: &RingConfig) -> (r: bool)
        requires
            self.wf(),
            other.wf(),
        ensures
            r == (self@.nodes == other@.nodes),
    {
        let a = self.nodes_within(other);
        let b = other.nodes_within(self);
        proof {
            if a && b {
                assert forall|k: Seq<char>| #[trigger] self@.nodes.contains_key(k) == other@.nodes.contains_key(k) by {
                    if self@.nodes.contains_key(k) {
                        assert(self@.nodes.dom().contains(k));
                    }
                    if other@.nodes.contains_key(k) {
                        assert(other@.nodes.dom().contains(k));
                    }
                }
                assert(self@.nodes =~= other@.nodes);
            }
        }
        a && b
    }

    /// Whether the two configurations are the same: same nodes and same update.
    pub fn same_config(&self, other: &RingConfig) -> (r: bool)
        requires
            self.wf(),
            other.wf(),
        ensures
            r == (self@ == other@),
    {
        self.same_nodes(other) && same_update(&self.update, &other.update)
    }

    /// A copy of the nodes, with the given update.
    pub fn with_update(&self, update: Option<RingUpdateConfig>) -> (r: RingConfig)
        requires
            self.wf(),
        ensures
            r.wf(),
            r@.nodes == self@.nodes,
            r@.update == update_view(update),
    {
        let mut nodes: Vec<(VirtualNodeId, NetworkId)> = Vec::new();
        let mut i: usize = 0;
        while i < self.nodes.len()
            invariant
                i <= self.nodes@.len(),
                pair_views(nodes@) == pair_views(self.nodes@).subrange(0, i as int),
            decreases self.nodes@.len() - i,
        {
            let ghost pv = pair_views(nodes@);
            let (vn, ni) = &self.nodes[i];
            nodes.push((vn.duplicate(), ni.duplicate()));
            proof {
                assert(pair_views(nodes@) =~= pv.push(pair_views(self.nodes@)[i as int]));
                assert(pair_views(nodes@) =~= pair_views(self.nodes@).subrange(0, i + 1));
            }
            i = i + 1;
        }
        assert(pair_views(self.nodes@).subrange(0, i as int) =~= pair_views(self.nodes@));
        RingConfig { nodes, update }
    }

    /// A copy of this configuration.
    pub fn duplicate(&self) -> (r: RingConfig)
        requires
            self.wf(),
        ensures
            r.wf(),
            r@ == self@,
    {
        self.with_update(duplicate_update(&self.update))
    }

    /// The virtual nodes of the ring.
    pub fn node_ids(&self) -> (r: Vec<VirtualNodeId>)
        requires
            self.wf(),
        ensures
            id_names(r@) == self@.nodes.dom(),
            r@.len() == self.nodes@.len(),
    {
        proof {
            lemma_map_of(pair_views(self.nodes@));
        }
        let mut out: Vec<VirtualNodeId> = Vec::new();
        let mut i: usize = 0;
        while i < self.nodes.len()
            invariant
                i <= self.nodes@.len(),
                out@.len() == i,
                forall|j: int| 0 <= j < i ==> #[trigger] out@[j]@ == self.nodes@[j].0@,
            decreases self.nodes@.len() - i,
        {
            out.push(self.nodes[i].0.duplicate());
            i = i + 1;
        }
        proof {
            lemma_map_of(pair_views(self.nodes@));
            assert forall|k: Seq<char>| #[trigger] id_names(out@).contains(k) == self@.nodes.contains_key(k) by {
                if id_names(out@).contains(k) {
                    let j = choose|j: int| 0 <= j < out@.len() && out@[j]@ == k;
                    assert(pair_views(self.nodes@)[j].0 == k);
                }
                if self@.nodes.contains_key(k) {
                    let j = choose|j: int| 0 <= j < self.nodes@.len() && pair_views(self.nodes@)[j].0 == k;
                    assert(out@[j]@ == k);
                }
            }
            assert(id_names(out@) =~= self@.nodes.dom());
        }
        out
    }
}

impl HashRing {
    /// Builds the ring of the virtual nodes of a configuration.
    pub fn from_config(cf: &RingConfig) -> (r: HashRing)
        requires
            cf.wf(),
        ensures
            r.wf(),
            r.names() == cf@.nodes.dom(),
            r@.len() == cf@.nodes.dom().len(),
    {
        proof {
            lemma_map_of(pair_views(cf.nodes@));
        }
        let ids = cf.node_ids();
        assert(ids@.len() == cf.nodes@.len());
        HashRing::from_nodes(ids)
    }
}

} // verus!
