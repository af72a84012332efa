//! Routing decisions of a node: where a request for a key goes, given the
//! node's view of the ring.
use vstd::prelude::*;
use vstd::utf8::encode_utf8;
use crate::config::{NetworkId, RingConfig, RingConfigView, RingUpdate, RingUpdateConfig};
use crate::ring::{
    HashRing, RingKey, Slot, lemma_owner_unique, next_index, owner_exists_for, owns, range_contains, sha256,
    sha256_of, vn_point,
};

verus! {

/// A key within a scope: the unit that the ring places.
pub struct CompositeKey {
    pub scope: String,
    pub key: String,
}

/// The bytes hashed to place a composite key: scope, a zero byte, key.
pub open spec fn composite_bytes(scope: Seq<char>, key: Seq<char>) -> Seq<u8> {
    encode_utf8(scope) + seq![0u8] + encode_utf8(key)
}

fn append_bytes(v: &mut Vec<u8>, b: &[u8])
    ensures
        final(v)@ == old(v)@ + b@,
{
    let mut i: usize = 0;
    while i < b.len()
        invariant
            i <= b@.len(),
            v@ == old(v)@ + b@.subrange(0, i as int),
        decreases b@.len() - i,
    {
        v.push(b[i]);
        proof {
            assert(b@.subrange(0, i + 1) =~= b@.subrange(0, i as int).push(b@[i as int]));
        }
        i = i + 1;
    }
    assert(b@.subrange(0, i as int) =~= b@);
}

impl RingKey for CompositeKey {
    open spec fn ring_point(&self) -> Seq<u8> {
        sha256_of(composite_bytes(self.scope@, self.key@))
    }

    fn as_sha256(&self) -> (r: Vec<u8>) {
        let mut data: Vec<u8> = Vec::new();
        append_bytes(&mut data, self.scope.as_str().as_bytes());
        data.push(0u8);
        append_bytes(&mut data, self.key.as_str().as_bytes());
        assert(data@ =~= composite_bytes(self.scope@, self.key@));
        sha256(data.as_slice())
    }
}

/// Why a request could not be routed.
#[derive(Debug, Clone, Copy, PartialEq, Eq, Structural)]
pub enum RouteError {
    /// The request was forwarded too many times.
    TtlExpired,
    /// The ring lists a virtual node that the configuration does not map, or is empty.
    RingCorrupt,
    /// No ring is configured here and there is no other node to ask.
    NoPeers,
    /// The configuration carries a kind of ring change that routing does not handle.
    UnsupportedUpdate,
}

/// What a node does with a request for a key.
pub enum Action {
    /// Another node owns the key: send the request there.
    Forward(NetworkId),
    /// This node owns the key: serve it from local storage.
    Store,
    /// This node owns the key, but it is moving to the given node: reads
    /// merge both copies, writes go to the new owner.
    StoreAdding(NetworkId),
}

pub enum ActionView {
    Forward(Seq<char>),
    Store,
    StoreAdding(Seq<char>),
}

impl View for Action {
    type V = ActionView;

    open spec fn view(&self) -> ActionView {
        match self {
            Action::Forward(ni) => ActionView::Forward(ni@),
            Action::Store => ActionView::Store,
            Action::StoreAdding(ni) => ActionView::StoreAdding(ni@),
        }
    }
}

pub open spec fn action_result(r: Result<Action, RouteError>) -> Result<ActionView, RouteError> {
    match r {
        Ok(a) => Ok(a@),
        Err(e) => Err(e),
    }
}

/// The slot that owns the digest `h` on a non-empty ring.
pub open spec fn owner_index(s: Seq<Slot>, h: Seq<u8>) -> int {
    choose|i: int| owns(s, h, i)
}

/// What node `me` does with a key placed at `h`, given its ring `s` and
/// configuration `cf`: the owner of the key's range is the network node of
/// the range's first virtual node; a node that is not the owner forwards; the
/// owner stores, unless an addition in progress splits the key's range, in
/// which case the key is on its way to the added node.
pub open spec fn route_spec(s: Seq<Slot>, cf: RingConfigView, h: Seq<u8>, me: Seq<char>) -> Result<
    ActionView,
    RouteError,
> {
    if s.len() == 0 {
        Err(RouteError::RingCorrupt)
    } else {
        let i = owner_index(s, h);
        let vn0 = s[i].1;
        let vn1 = s[next_index(i, s.len() as int)].1;
        if !cf.nodes.contains_key(vn0) {
            Err(RouteError::RingCorrupt)
        } else if cf.nodes[vn0] != me {
            Ok(ActionView::Forward(cf.nodes[vn0]))
        } else {
            match cf.update {
                Some(RingUpdate::ToAdd(vn, ni)) => if range_contains(
                    vn_point(vn0),
                    vn_point(vn1),
                    vn_point(vn),
                ) {
                    Ok(ActionView::StoreAdding(ni))
                } else {
                    Ok(ActionView::Store)
                },
                Some(RingUpdate::ToRemove(_, _)) => Err(RouteError::UnsupportedUpdate),
                None => Ok(ActionView::Store),
            }
        }
    }
}

/// Decides what node `myself` does with a request for `ck`.
pub fn action(ck: &CompositeKey, cf: &RingConfig, ring: &HashRing, myself: &NetworkId) -> (r: Result<
    Action,
    RouteError,
>)
    requires
        cf.wf(),
        ring.wf(),
    ensures
        action_result(r) == route_spec(ring@, cf@, ck.ring_point(), myself@),
{
    if ring.len() == 0 {
        return Err(RouteError::RingCorrupt);
    }
    let cursor = ring.cursor(ck);
    let range = cursor.range();
    proof {
        let i = cursor@.1;
        let h = ck.ring_point();
        assert(owns(ring@, h, owner_index(ring@, h)));
        lemma_owner_unique(ring@, h, i, owner_index(ring@, h));
    }
    let vn0 = range.start();
    let ni0 = match cf.network_id(vn0) {
        Some(ni) => ni,
        None => {
            return Err(RouteError::RingCorrupt);
        },
    };
    if !ni0.same(myself) {
        return Ok(Action::Forward(ni0.duplicate()));
    }
    match &cf.update {
        Some(RingUpdateConfig::ToAdd { vn, ni }) => {
            if range.contains(vn) {
                Ok(Action::StoreAdding(ni.duplicate()))
            } else {
                Ok(Action::Store)
            }
        },
        Some(RingUpdateConfig::ToRemove { .. }) => Err(RouteError::UnsupportedUpdate),
        None => Ok(Action::Store),
    }
}

/// Steady state: with no change in progress and a ring that agrees with the
/// configuration, every node sends a key to the same owner, and the owner
/// serves it itself, so a request ends at the owner after at most one hop.
pub proof fn lemma_steady_state_single_owner(
    s: Seq<Slot>,
    cf: RingConfigView,
    h: Seq<u8>,
    me: Seq<char>,
    other: Seq<char>,
)
    requires
        s.len() > 0,
        cf.update.is_none(),
        forall|i: int| 0 <= i < s.len() ==> cf.nodes.contains_key(#[trigger] s[i].1),
    ensures
        ({
            let owner = cf.nodes[s[owner_index(s, h)].1];
            &&& route_spec(s, cf, h, owner) == Ok::<ActionView, RouteError>(ActionView::Store)
            &&& me != owner ==> route_spec(s, cf, h, me) == Ok::<ActionView, RouteError>(
                ActionView::Forward(owner),
            )
            &&& (route_spec(s, cf, h, me) matches Ok(ActionView::Forward(a)) ==> (route_spec(
                s,
                cf,
                h,
                other,
            ) matches Ok(ActionView::Forward(b)) ==> a == b))
        }),
{
    owner_exists_for(s, h);
}

/// The TTL to forward with: one less, or an error when none is left.
pub fn forward_ttl(ttl: u32) -> (r: Result<u32, RouteError>)
    ensures
        ttl == 0 ==> r == Err::<u32, RouteError>(RouteError::TtlExpired),
        ttl > 0 ==> r == Ok::<u32, RouteError>((ttl - 1) as u32),
{
    if ttl == 0 {
        Err(RouteError::TtlExpired)
    } else {
        Ok(ttl - 1)
    }
}

/// Where a node of the cluster can be reached.
pub enum Location {
    /// A stable address, usable as a network ID.
    Stable(String),
    /// An address that may change; routers never have one.
    Ephemeral(String),
}

/// The stable address of a location, if it has one.
pub open spec fn stable_name(l: Location) -> Option<Seq<char>> {
    match l {
        Location::Stable(s) => Some(s@),
        Location::Ephemeral(_) => None,
    }
}

/// The stable peers other than `myself`.
pub open spec fn candidate_peers(me: Seq<char>, locs: Seq<Location>) -> Set<Seq<char>> {
    Set::new(
        |p: Seq<char>|
            exists|i: int| 0 <= i < locs.len() && #[trigger] stable_name(locs[i]) == Some(p) && p != me,
    )
}

/// The stable peers other than `myself`, in the order given.
pub fn peer_candidates(myself: &NetworkId, locs: &Vec<Location>) -> (r: Vec<NetworkId>)
    ensures
        forall|k: int| 0 <= k < r@.len() ==> candidate_peers(myself@, locs@).contains(#[trigger] r@[k]@),
        forall|p: Seq<char>| #[trigger] candidate_peers(myself@, locs@).contains(p) ==> exists|k: int|
            0 <= k < r@.len() && r@[k]@ == p,
{
    let mut out: Vec<NetworkId> = Vec::new();
    let mut i: usize = 0;
    while i < locs.len()
        invariant
            i <= locs@.len(),
            forall|k: int| 0 <= k < out@.len() ==> candidate_peers(myself@, locs@).contains(#[trigger] out@[k]@),
            forall|p: Seq<char>| #[trigger] candidate_peers(myself@, locs@.subrange(0, i as int)).contains(p) ==> exists|k: int|
                0 <= k < out@.len() && out@[k]@ == p,
        decreases locs@.len() - i,
    {
        let ghost before = out@;
        let ghost mut pushed: Option<Seq<char>> = None;
        match &locs[i] {
            Location::Stable(s) => {
                if !s.eq(&myself.0) {
                    out.push(NetworkId(s.clone()));
                    proof {
                        pushed = Some(s@);
                        assert(stable_name(locs@[i as int]) == Some(s@));
                        assert(candidate_peers(myself@, locs@).contains(s@));
                    }
                }
            },
            Location::Ephemeral(_) => {},
        }
        assert(pushed matches Some(x) ==> out@ == before.push(out@.last()) && out@.last()@ == x);
        assert(pushed is None ==> out@ == before);
        assert(forall|p: Seq<char>| stable_name(locs@[i as int]) == Some(p) && p != myself@ ==> pushed == Some(p));
        proof {
            let pre = locs@.subrange(0, i as int);
            let post = locs@.subrange(0, i + 1);
            assert forall|p: Seq<char>| #[trigger] candidate_peers(myself@, post).contains(p) implies exists|k: int|
                0 <= k < out@.len() && out@[k]@ == p by {
                let j = choose|j: int| 0 <= j < post.len() && #[trigger] stable_name(post[j]) == Some(p) && p != myself@;
                if j < i {
                    assert(pre[j] == post[j]);
                    assert(candidate_peers(myself@, pre).contains(p));
                    let k = choose|k: int| 0 <= k < before.len() && before[k]@ == p;
                    assert(out@[k] == before[k]);
                } else {
                    assert(post[j] == locs@[i as int]);
                    assert(out@[out@.len() - 1]@ == p);
                }
            }
        }
        i = i + 1;
    }
    assert(locs@.subrange(0, locs@.len() as int) =~= locs@);
    out
}

/// Picks the candidate at `pick`, counted modulo the number of candidates.
pub fn choose_peer(candidates: Vec<NetworkId>, pick: usize) -> (r: Result<NetworkId, RouteError>)
    ensures
        candidates@.len() == 0 ==> r == Err::<NetworkId, RouteError>(RouteError::NoPeers),
        candidates@.len() > 0 ==> (r matches Ok(p) && p@ == candidates@[pick as int % candidates@.len() as int]@),
{
    if candidates.len() == 0 {
        Err(RouteError::NoPeers)
    } else {
        let k = pick % candidates.len();
        Ok(candidates[k].duplicate())
    }
}

/// Relies on `rand::random_range`: a number drawn from `0..n`, which is not empty.
#[verifier::external_body]
fn random_below(n: usize) -> (r: usize)
    requires
        n > 0,
    ensures
        r < n,
{
    rand::random_range(0..n)
}

/// A random stable peer other than `myself`, or `NoPeers` when there is none.
pub fn random_peer(myself: &NetworkId, locs: &Vec<Location>) -> (r: Result<NetworkId, RouteError>)
    ensures
        r matches Ok(p) ==> candidate_peers(myself@, locs@).contains(p@),
        r matches Err(e) ==> e == RouteError::NoPeers && candidate_peers(myself@, locs@) =~= Set::<Seq<char>>::empty(),
{
    let candidates = peer_candidates(myself, locs);
    if candidates.len() == 0 {
        proof {
            assert forall|p: Seq<char>| !candidate_peers(myself@, locs@).contains(p) by {
                if candidate_peers(myself@, locs@).contains(p) {
                    let k = choose|k: int| 0 <= k < candidates@.len() && candidates@[k]@ == p;
                }
            }
        }
        return Err(RouteError::NoPeers);
    }
    let pick = random_below(candidates.len());
    let ghost c = candidates@;
    let r = choose_peer(candidates, pick);
    proof {
        assert(candidate_peers(myself@, locs@).contains(c[pick as int]@));
    }
    r
}

/// What a node does with a request.
pub enum Plan {
    /// Send the request on, with the given TTL.
    Forward(NetworkId, u32),
    /// Serve it from local storage.
    Store,
    /// Serve reads from local storage merged with the new owner's stored
    /// copy; store writes at the new owner.
    StoreAdding(NetworkId),
}

/// Plans a request that arrived with `ttl` at node `myself`: a request with
/// no TTL left fails; a node with no ring forwards to a random peer; otherwise
/// `action` decides.
pub fn plan_request(
    ttl: u32,
    ck: &CompositeKey,
    ring: Option<(&RingConfig, &HashRing)>,
    myself: &NetworkId,
    peers: &Vec<Location>,
) -> (r: Result<Plan, RouteError>)
    requires
        ring matches Some((cf, hr)) ==> cf.wf() && hr.wf(),
    ensures
        ttl == 0 ==> r == Err::<Plan, RouteError>(RouteError::TtlExpired),
        ttl > 0 && ring.is_none() ==> match r {
            Ok(Plan::Forward(p, t)) => t == ttl - 1 && candidate_peers(myself@, peers@).contains(p@),
            Err(e) => e == RouteError::NoPeers && candidate_peers(myself@, peers@) =~= Set::<Seq<char>>::empty(),
            _ => false,
        },
        ttl > 0 ==> (ring matches Some((cf, hr)) ==> match route_spec(hr@, cf@, ck.ring_point(), myself@) {
            Ok(ActionView::Forward(ni)) => (r matches Ok(Plan::Forward(p, t)) && p@ == ni && t == ttl - 1),
            Ok(ActionView::Store) => r matches Ok(Plan::Store),
            Ok(ActionView::StoreAdding(ni)) => (r matches Ok(Plan::StoreAdding(p)) && p@ == ni),
            Err(e) => r == Err::<Plan, RouteError>(e),
        }),
{
    let next = match forward_ttl(ttl) {
        Ok(t) => t,
        Err(e) => {
            return Err(e);
        },
    };
    match ring {
        None => match random_peer(myself, peers) {
            Ok(p) => Ok(Plan::Forward(p, next)),
            Err(e) => Err(e),
        },
        Some((cf, hr)) => match action(ck, cf, hr, myself) {
            Ok(Action::Forward(p)) => Ok(Plan::Forward(p, next)),
            Ok(Action::Store) => Ok(Plan::Store),
            Ok(Action::StoreAdding(p)) => Ok(Plan::StoreAdding(p)),
            Err(e) => Err(e),
        },
    }
}

/// How the two answers of a read during a migration combine.
pub enum ReadMerge {
    /// At most one side holds the value: this is the answer.
    Done(Option<Vec<u8>>),
    /// Both sides hold a value: the answer is their merge in the key's scope.
    Merge(Vec<u8>, Vec<u8>),
}

/// Combines the local and the remote answer of a read: presence is the union,
/// and two present values are to be merged.
pub fn combine_reads(local: Option<Vec<u8>>, remote: Option<Vec<u8>>) -> (r: ReadMerge)
    ensures
        match (local, remote) {
            (None, None) => r matches ReadMerge::Done(None),
            (Some(a), None) => r matches ReadMerge::Done(Some(x)) && x@ == a@,
            (None, Some(b)) => r matches ReadMerge::Done(Some(x)) && x@ == b@,
            (Some(a), Some(b)) => r matches ReadMerge::Merge(x, y) && x@ == a@ && y@ == b@,
        },
{
    match (local, remote) {
        (None, None) => ReadMerge::Done(None),
        (Some(a), None) => ReadMerge::Done(Some(a)),
        (None, Some(b)) => ReadMerge::Done(Some(b)),
        (Some(a), Some(b)) => ReadMerge::Merge(a, b),
    }
}

} // verus!
