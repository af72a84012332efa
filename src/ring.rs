//! The consistent hash ring: virtual nodes placed by the SHA-256 digest of
//! their names, a cursor that finds the slot owning a key, and the key range
//! that each slot covers.
use vstd::prelude::*;
use vstd::utf8::{encode_utf8, encode_utf8_decode_utf8};
use sha2::Digest;
use crate::hex::{Hex, hex_of};
use crate::order::{
    compare_bytes, lemma_lex_asymmetric, lemma_lex_irreflexive, lemma_lex_le_transitive,
    lemma_lex_total, lemma_lex_transitive, lex_le, lex_lt,
};

verus! {

/// What SHA-256 yields on the given bytes.
pub uninterp spec fn sha256_of(data: Seq<u8>) -> Seq<u8>;

/// Relies on `sha2::Sha256::digest`: the SHA-256 digest of the input, which is 32 bytes long.
#[verifier::external_body]
pub(crate) fn sha256(data: &[u8]) -> (r: Vec<u8>)
    ensures
        r@ == sha256_of(data@),
        r@.len() == 32,
{
    sha2::Sha256::digest(data).to_vec()
}

/// The point of a virtual node on the ring: the digest of its name's UTF-8 bytes.
pub open spec fn vn_point(name: Seq<char>) -> Seq<u8> {
    sha256_of(encode_utf8(name))
}

/// Values that have a place on the ring.
pub trait RingKey {
    /// The digest that places this value on the ring.
    spec fn ring_point(&self) -> Seq<u8>;

    fn as_sha256(&self) -> (r: Vec<u8>)
        ensures
            r@ == self.ring_point(),
    ;

    /// The digest in lower-case hexadecimal.
    fn as_sha256_string(&self) -> (r: String)
        ensures
            r@ == hex_of(self.ring_point()),
    {
        Hex(self.as_sha256()).to_hex_string()
    }
}

/// A virtual node ID. Each physical node has several of these on the ring,
/// for a more even partitioning.
#[derive(Debug, Clone, PartialEq, Eq, Hash, PartialOrd, Ord)]
pub struct VirtualNodeId(pub String);

impl View for VirtualNodeId {
    type V = Seq<char>;

    open spec fn view(&self) -> Seq<char> {
        self.0@
    }
}

impl VirtualNodeId {
    /// Whether the two IDs name the same virtual node.
    pub fn same(&self, other: &VirtualNodeId) -> (r: bool)
        ensures
            r == (self@ == other@),
    {
        self.0 == other.0
    }

    /// A copy of this ID.
    pub fn duplicate(&self) -> (r: VirtualNodeId)
        ensures
            r@ == self@,
    {
        VirtualNodeId(self.0.clone())
    }
}

impl RingKey for VirtualNodeId {
    open spec fn ring_point(&self) -> Seq<u8> {
        vn_point(self@)
    }

    fn as_sha256(&self) -> (r: Vec<u8>) {
        sha256(self.0.as_str().as_bytes())
    }
}

/// A slot of the ring as the logic sees it: its digest and the name of its virtual node.
pub type Slot = (Seq<u8>, Seq<char>);

/// Ring order: by digest, then by the bytes of the name.
pub open spec fn slot_lt(a: Slot, b: Slot) -> bool {
    lex_lt(a.0, b.0) || (a.0 == b.0 && lex_lt(encode_utf8(a.1), encode_utf8(b.1)))
}

pub open spec fn slot_le(a: Slot, b: Slot) -> bool {
    slot_lt(a, b) || a == b
}

pub open spec fn sorted_slots(s: Seq<Slot>) -> bool {
    forall|i: int, j: int| 0 <= i < j < s.len() ==> slot_le(s[i], s[j])
}

/// Every slot sits at the point of its own name.
pub open spec fn placed(s: Seq<Slot>) -> bool {
    forall|i: int| 0 <= i < s.len() ==> s[i].0 == vn_point(s[i].1)
}

pub open spec fn slot_names(s: Seq<Slot>) -> Set<Seq<char>> {
    Set::new(|v: Seq<char>| exists|i: int| 0 <= i < s.len() && s[i].1 == v)
}

/// The slots that a list of virtual nodes makes, in list order.
pub open spec fn node_slots(s: Seq<VirtualNodeId>) -> Seq<Slot> {
    s.map_values(|v: VirtualNodeId| (vn_point(v@), v@))
}

pub open spec fn id_names(s: Seq<VirtualNodeId>) -> Set<Seq<char>> {
    Set::new(|v: Seq<char>| exists|i: int| 0 <= i < s.len() && s[i]@ == v)
}

/// Slot `i` owns the digest `h`: it is the last slot at or before `h`, or,
/// where every slot lies after `h`, the last slot of all (the ring wraps).
pub open spec fn owns(s: Seq<Slot>, h: Seq<u8>, i: int) -> bool {
    &&& 0 <= i < s.len()
    &&& (lex_le(s[i].0, h) && forall|j: int| i < j < s.len() ==> lex_lt(h, #[trigger] s[j].0))
        || (i == s.len() - 1 && forall|j: int| 0 <= j < s.len() ==> lex_lt(h, #[trigger] s[j].0))
}

/// Whether the half-open range from `a` to `b` holds `x`, wrapping past the
/// end of the ring where `b` comes before `a`. A range with equal ends is empty.
pub open spec fn range_contains(a: Seq<u8>, b: Seq<u8>, x: Seq<u8>) -> bool {
    if a == b {
        false
    } else if lex_lt(a, b) {
        lex_le(a, x) && lex_lt(x, b)
    } else {
        lex_le(a, x) || lex_lt(x, b)
    }
}

/// The slot after `i` on a ring of `n` slots, wrapping to the first.
pub open spec fn next_index(i: int, n: int) -> int {
    if i + 1 < n {
        i + 1
    } else {
        0
    }
}

/// The slot before `i` on a ring of `n` slots, wrapping to the last.
pub open spec fn prev_index(i: int, n: int) -> int {
    if i == 0 {
        n - 1
    } else {
        i - 1
    }
}

proof fn lemma_names_inj(a: Seq<char>, b: Seq<char>)
    requires
        encode_utf8(a) == encode_utf8(b),
    ensures
        a == b,
{
    encode_utf8_decode_utf8(a);
    encode_utf8_decode_utf8(b);
}

pub proof fn lemma_slot_total(a: Slot, b: Slot)
    ensures
        slot_lt(a, b) || a == b || slot_lt(b, a),
{
    lemma_lex_total(a.0, b.0);
    lemma_lex_total(encode_utf8(a.1), encode_utf8(b.1));
    if encode_utf8(a.1) == encode_utf8(b.1) {
        lemma_names_inj(a.1, b.1);
    }
}

pub proof fn lemma_slot_asymmetric(a: Slot, b: Slot)
    requires
        slot_lt(a, b),
    ensures
        !slot_lt(b, a),
        a != b,
{
    if lex_lt(a.0, b.0) {
        lemma_lex_asymmetric(a.0, b.0);
    } else {
        lemma_lex_asymmetric(encode_utf8(a.1), encode_utf8(b.1));
        lemma_lex_irreflexive(a.0);
    }
}

pub proof fn lemma_slot_le_transitive(a: Slot, b: Slot, c: Slot)
    requires
        slot_le(a, b),
        slot_le(b, c),
    ensures
        slot_le(a, c),
{
    if slot_lt(a, b) && slot_lt(b, c) {
        if lex_lt(a.0, b.0) && lex_lt(b.0, c.0) {
            lemma_lex_transitive(a.0, b.0, c.0);
        } else if !lex_lt(a.0, b.0) && !lex_lt(b.0, c.0) {
            lemma_lex_transitive(encode_utf8(a.1), encode_utf8(b.1), encode_utf8(c.1));
        }
    }
}

pub proof fn lemma_slot_antisymmetric(a: Slot, b: Slot)
    requires
        slot_le(a, b),
        slot_le(b, a),
    ensures
        a == b,
{
    if slot_lt(a, b) {
        lemma_slot_asymmetric(a, b);
    }
}

/// In a sorted ring the digests never decrease.
pub proof fn lemma_sorted_points(s: Seq<Slot>, i: int, j: int)
    requires
        sorted_slots(s),
        0 <= i <= j < s.len(),
    ensures
        lex_le(s[i].0, s[j].0),
{
    if i < j {
        assert(slot_le(s[i], s[j]));
    }
}

/// At most one slot owns a digest.
pub proof fn lemma_owner_unique(s: Seq<Slot>, h: Seq<u8>, i: int, k: int)
    requires
        owns(s, h, i),
        owns(s, h, k),
    ensures
        i == k,
{
    if i != k {
        let (lo, hi) = if i < k { (i, k) } else { (k, i) };
        assert(owns(s, h, lo) && owns(s, h, hi));
        if lex_le(s[hi].0, h) {
            assert(lex_lt(h, s[hi].0));
            lemma_lex_asymmetric(h, s[hi].0);
        } else {
            assert(hi == s.len() - 1);
            assert(lex_lt(h, s[lo].0));
            assert(lex_le(s[lo].0, h));
            lemma_lex_asymmetric(h, s[lo].0);
        }
    }
}

/// Every slot of a sorted ring lies at or before the slot that owns `h`, if
/// its digest is at most `h`; and where no digest is at most `h`, before the
/// last slot.
proof fn lemma_owner_is_greatest(s: Seq<Slot>, h: Seq<u8>, i: int, j: int)
    requires
        sorted_slots(s),
        owns(s, h, i),
        0 <= j < s.len(),
        lex_le(s[j].0, h) || (forall|m: int| 0 <= m < s.len() ==> lex_lt(h, #[trigger] s[m].0)),
    ensures
        slot_le(s[j], s[i]),
{
    if j > i {
        if lex_le(s[j].0, h) {
            assert(lex_lt(h, s[j].0));
            lemma_lex_asymmetric(h, s[j].0);
        } else {
            assert(lex_lt(h, s[i].0));
            lemma_lex_asymmetric(h, s[i].0);
        }
    } else if j < i {
        assert(slot_le(s[j], s[i]));
    }
}

/// Determinism of the ring: the name of the slot that owns a digest depends
/// only on the set of names on the ring, not on how the ring was listed.
pub proof fn lemma_owner_depends_only_on_names(
    s1: Seq<Slot>,
    s2: Seq<Slot>,
    h: Seq<u8>,
    i1: int,
    i2: int,
)
    requires
        sorted_slots(s1),
        placed(s1),
        sorted_slots(s2),
        placed(s2),
        slot_names(s1) == slot_names(s2),
        owns(s1, h, i1),
        owns(s2, h, i2),
    ensures
        s1[i1].1 == s2[i2].1,
{
    let a = s1[i1].1;
    let b = s2[i2].1;
    assert(slot_names(s1).contains(a));
    assert(slot_names(s2).contains(b));
    let ja = choose|j: int| 0 <= j < s2.len() && s2[j].1 == a;
    let jb = choose|j: int| 0 <= j < s1.len() && s1[j].1 == b;
    assert(s2[ja] == s1[i1]);
    assert(s1[jb] == s2[i2]);
    if lex_le(s1[i1].0, h) {
        lemma_owner_is_greatest(s2, h, i2, ja);
    } else {
        if !lex_le(s2[ja].0, h) {
            assert forall|m: int| 0 <= m < s2.len() implies lex_lt(h, #[trigger] s2[m].0) by {
                assert(slot_names(s1).contains(s2[m].1));
                let q = choose|q: int| 0 <= q < s1.len() && s1[q].1 == s2[m].1;
                assert(lex_lt(h, s1[q].0));
            }
        }
        lemma_owner_is_greatest(s2, h, i2, ja);
    }
    if lex_le(s2[i2].0, h) {
        lemma_owner_is_greatest(s1, h, i1, jb);
    } else {
        if !lex_le(s1[jb].0, h) {
            assert forall|m: int| 0 <= m < s1.len() implies lex_lt(h, #[trigger] s1[m].0) by {
                assert(slot_names(s2).contains(s1[m].1));
                let q = choose|q: int| 0 <= q < s2.len() && s2[q].1 == s1[m].1;
                assert(lex_lt(h, s2[q].0));
            }
        }
        lemma_owner_is_greatest(s1, h, i1, jb);
    }
    lemma_slot_antisymmetric(s1[i1], s2[i2]);
}

/// Wrap-around: a digest below every slot is owned by the last (largest) slot.
pub proof fn lemma_owner_wraps(s: Seq<Slot>, h: Seq<u8>, i: int)
    requires
        sorted_slots(s),
        owns(s, h, i),
        forall|j: int| 0 <= j < s.len() ==> lex_lt(h, #[trigger] s[j].0),
    ensures
        i == s.len() - 1,
        forall|j: int| 0 <= j < s.len() ==> slot_le(#[trigger] s[j], s[i]),
{
    if i != s.len() - 1 {
        assert(lex_lt(h, s[i].0));
        lemma_lex_asymmetric(h, s[i].0);
    }
    assert forall|j: int| 0 <= j < s.len() implies slot_le(#[trigger] s[j], s[i]) by {
        lemma_owner_is_greatest(s, h, i, j);
    }
}

/// Whether the range of slot `i` (from it to the next slot) holds `h`.
pub open spec fn slot_range_holds(s: Seq<Slot>, i: int, h: Seq<u8>) -> bool {
    range_contains(s[i].0, s[next_index(i, s.len() as int)].0, h)
}

/// The ring holds two slots at distinct points.
pub open spec fn spread(s: Seq<Slot>) -> bool {
    exists|i: int, j: int| 0 <= i < s.len() && 0 <= j < s.len() && s[i].0 != s[j].0
}

proof fn lemma_spread_ends(s: Seq<Slot>)
    requires
        sorted_slots(s),
        spread(s),
    ensures
        s.len() >= 2,
        lex_lt(s[0].0, s[s.len() - 1].0),
{
    let (i, j) = choose|i: int, j: int| 0 <= i < s.len() && 0 <= j < s.len() && s[i].0 != s[j].0;
    lemma_sorted_points(s, 0, i);
    lemma_sorted_points(s, 0, j);
    lemma_sorted_points(s, i, s.len() - 1);
    lemma_sorted_points(s, j, s.len() - 1);
    lemma_sorted_points(s, 0, s.len() - 1);
    if s[0].0 == s[s.len() - 1].0 {
        lemma_lex_le_transitive(s[i].0, s[s.len() - 1].0, s[0].0);
        lemma_lex_le_transitive(s[j].0, s[s.len() - 1].0, s[0].0);
        if lex_lt(s[0].0, s[i].0) {
            lemma_lex_asymmetric(s[0].0, s[i].0);
        }
        if lex_lt(s[0].0, s[j].0) {
            lemma_lex_asymmetric(s[0].0, s[j].0);
        }
    }
}

/// The range of the slot that owns `h` holds `h`, on a ring with two distinct points.
proof fn lemma_owner_range_holds(s: Seq<Slot>, h: Seq<u8>, i: int)
    requires
        sorted_slots(s),
        spread(s),
        owns(s, h, i),
    ensures
        slot_range_holds(s, i, h),
{
    let n = s.len() as int;
    lemma_spread_ends(s);
    lemma_lex_asymmetric(s[0].0, s[n - 1].0);
    if i + 1 < n {
        assert(next_index(i, n) == i + 1);
        assert(lex_lt(h, s[i + 1].0));
        if lex_le(s[i].0, h) {
            lemma_lex_le_transitive(s[i].0, h, s[i + 1].0);
            lemma_lex_asymmetric(h, s[i + 1].0);
        } else {
            assert(i == n - 1);
        }
    } else {
        assert(next_index(i, n) == 0);
    }
}

/// A slot whose range holds `h` owns `h`.
proof fn lemma_range_holder_owns(s: Seq<Slot>, h: Seq<u8>, i: int)
    requires
        sorted_slots(s),
        0 <= i < s.len(),
        slot_range_holds(s, i, h),
    ensures
        owns(s, h, i),
{
    let n = s.len() as int;
    if i + 1 < n {
        assert(next_index(i, n) == i + 1);
        lemma_sorted_points(s, i, i + 1);
        assert(lex_lt(s[i].0, s[i + 1].0));
        assert(lex_le(s[i].0, h) && lex_lt(h, s[i + 1].0));
        assert forall|j: int| i < j < s.len() implies lex_lt(h, #[trigger] s[j].0) by {
            lemma_sorted_points(s, i + 1, j);
            if lex_lt(s[i + 1].0, s[j].0) {
                lemma_lex_transitive(h, s[i + 1].0, s[j].0);
            }
        }
    } else {
        assert(next_index(i, n) == 0);
        lemma_sorted_points(s, 0, i);
        if lex_lt(s[i].0, s[0].0) {
            lemma_lex_asymmetric(s[i].0, s[0].0);
        }
        if !lex_le(s[i].0, h) {
            assert forall|j: int| 0 <= j < s.len() implies lex_lt(h, #[trigger] s[j].0) by {
                lemma_sorted_points(s, 0, j);
                if lex_lt(s[0].0, s[j].0) {
                    lemma_lex_transitive(h, s[0].0, s[j].0);
                }
            }
        }
    }
}

/// On a ring with two distinct points, exactly one slot's range holds any given digest.
pub proof fn lemma_exactly_one_range(s: Seq<Slot>, h: Seq<u8>)
    requires
        sorted_slots(s),
        spread(s),
    ensures
        exists|i: int| 0 <= i < s.len() && slot_range_holds(s, i, h),
        forall|i: int, k: int|
            0 <= i < s.len() && 0 <= k < s.len() && slot_range_holds(s, i, h)
                && slot_range_holds(s, k, h) ==> i == k,
{
    lemma_spread_ends(s);
    let i = owner_exists(s, h);
    lemma_owner_range_holds(s, h, i);
    assert forall|a: int, k: int|
        0 <= a < s.len() && 0 <= k < s.len() && slot_range_holds(s, a, h)
            && slot_range_holds(s, k, h) implies a == k by {
        lemma_range_holder_owns(s, h, a);
        lemma_range_holder_owns(s, h, k);
        lemma_owner_unique(s, h, a, k);
    }
}

/// A virtual node on the ring lies in the range of the slot that owns its own
/// point, on a ring with two distinct points.
pub proof fn lemma_node_in_own_range(s: Seq<Slot>, j: int, i: int)
    requires
        sorted_slots(s),
        placed(s),
        spread(s),
        0 <= j < s.len(),
        owns(s, vn_point(s[j].1), i),
    ensures
        slot_range_holds(s, i, vn_point(s[j].1)),
{
    lemma_owner_range_holds(s, vn_point(s[j].1), i);
}

proof fn last_at_or_below(s: Seq<Slot>, h: Seq<u8>, k: int) -> (r: int)
    requires
        0 <= k <= s.len(),
        forall|j: int| k <= j < s.len() ==> !lex_le(#[trigger] s[j].0, h),
    ensures
        -1 <= r < k,
        r >= 0 ==> lex_le(s[r].0, h),
        forall|j: int| r < j < s.len() ==> !lex_le(#[trigger] s[j].0, h),
    decreases k,
{
    if k == 0 {
        -1
    } else if lex_le(s[k - 1].0, h) {
        k - 1
    } else {
        last_at_or_below(s, h, k - 1)
    }
}

/// A non-empty ring has an owner for every digest.
pub proof fn owner_exists_for(s: Seq<Slot>, h: Seq<u8>) -> (i: int)
    requires
        s.len() > 0,
    ensures
        owns(s, h, i),
{
    owner_exists(s, h)
}

proof fn owner_exists(s: Seq<Slot>, h: Seq<u8>) -> (i: int)
    requires
        s.len() > 0,
    ensures
        owns(s, h, i),
{
    let r = last_at_or_below(s, h, s.len() as int);
    assert forall|j: int| r < j < s.len() implies lex_lt(h, #[trigger] s[j].0) by {
        lemma_lex_total(h, s[j].0);
    }
    if r >= 0 {
        r
    } else {
        s.len() - 1
    }
}

pub open spec fn entry_slots(d: Seq<(Vec<u8>, VirtualNodeId)>) -> Seq<Slot> {
    d.map_values(|e: (Vec<u8>, VirtualNodeId)| (e.0@, e.1@))
}

/// Whether slot `d[p]` comes strictly before `(h, v)` in ring order.
fn slot_before(d: &Vec<(Vec<u8>, VirtualNodeId)>, p: usize, h: &Vec<u8>, v: &VirtualNodeId) -> (r: bool)
    requires
        p < d@.len(),
    ensures
        r == slot_lt(entry_slots(d@)[p as int], (h@, v@)),
{
    let c = compare_bytes(d[p].0.as_slice(), h.as_slice());
    proof {
        if c == 1 {
            lemma_lex_asymmetric(h@, d@[p as int].0@);
        }
    }
    if c == -1 {
        true
    } else if c == 1 {
        false
    } else {
        compare_bytes(d[p].1.0.as_str().as_bytes(), v.0.as_str().as_bytes()) == -1
    }
}

proof fn lemma_insert_sorted(old_s: Seq<Slot>, x: Slot, p: int)
    requires
        sorted_slots(old_s),
        0 <= p <= old_s.len(),
        forall|j: int| 0 <= j < p ==> slot_lt(#[trigger] old_s[j], x),
        p < old_s.len() ==> !slot_lt(old_s[p], x),
    ensures
        sorted_slots(old_s.insert(p, x)),
{
    let ns = old_s.insert(p, x);
    assert(ns.len() == old_s.len() + 1);
    assert forall|i: int| 0 <= i < ns.len() implies #[trigger] ns[i] == (if i < p {
        old_s[i]
    } else if i == p {
        x
    } else {
        old_s[i - 1]
    }) by {}
    if p < old_s.len() {
        lemma_slot_total(old_s[p], x);
    }
    assert forall|i: int, j: int| 0 <= i < j < ns.len() implies slot_le(ns[i], ns[j]) by {
        if j < p {
        } else if j == p {
            assert(slot_lt(old_s[i], x));
        } else if i < p {
            assert(slot_lt(old_s[i], x));
            assert(slot_le(x, old_s[p]));
            if j - 1 > p {
                assert(slot_le(old_s[p], old_s[j - 1]));
                lemma_slot_le_transitive(x, old_s[p], old_s[j - 1]);
            }
            lemma_slot_le_transitive(old_s[i], x, old_s[j - 1]);
        } else if i == p {
            assert(slot_le(x, old_s[p]));
            if j - 1 > p {
                assert(slot_le(old_s[p], old_s[j - 1]));
                lemma_slot_le_transitive(x, old_s[p], old_s[j - 1]);
            }
        } else {
            assert(slot_le(old_s[i - 1], old_s[j - 1]));
        }
    }
}

proof fn lemma_insert_members(old_s: Seq<Slot>, x: Slot, p: int)
    requires
        0 <= p <= old_s.len(),
    ensures
        old_s.insert(p, x)[p] == x,
        forall|i: int|
            0 <= i < old_s.len() + 1 ==> #[trigger] old_s.insert(p, x)[i] == x || exists|j: int|
                0 <= j < old_s.len() && old_s[j] == old_s.insert(p, x)[i],
        forall|j: int|
            0 <= j < old_s.len() ==> exists|i: int|
                0 <= i < old_s.len() + 1 && old_s.insert(p, x)[i] == #[trigger] old_s[j],
{
    let ns = old_s.insert(p, x);
    assert(ns.len() == old_s.len() + 1);
    assert forall|i: int| 0 <= i < ns.len() implies #[trigger] ns[i] == (if i < p {
        old_s[i]
    } else if i == p {
        x
    } else {
        old_s[i - 1]
    }) by {}
    assert forall|j: int| 0 <= j < old_s.len() implies exists|i: int|
        0 <= i < old_s.len() + 1 && ns[i] == #[trigger] old_s[j] by {
        if j < p {
            assert(ns[j] == old_s[j]);
        } else {
            assert(ns[j + 1] == old_s[j]);
        }
    }
    assert forall|i: int| 0 <= i < old_s.len() + 1 implies #[trigger] ns[i] == x || exists|j: int|
        0 <= j < old_s.len() && old_s[j] == ns[i] by {
        if i < p {
            assert(old_s[i] == ns[i]);
        } else if i > p {
            assert(old_s[i - 1] == ns[i]);
        }
    }
}

/// Inserts `(h, v)` into a sorted list of slots, keeping it sorted.
fn insert_sorted(d: &mut Vec<(Vec<u8>, VirtualNodeId)>, h: Vec<u8>, v: VirtualNodeId)
    requires
        sorted_slots(entry_slots(old(d)@)),
    ensures
        exists|p: int|
            0 <= p <= old(d)@.len() && entry_slots(final(d)@) == entry_slots(old(d)@).insert(
                p,
                (h@, v@),
            ) && sorted_slots(entry_slots(final(d)@)),
{
    let ghost old_s = entry_slots(d@);
    let ghost x: Slot = (h@, v@);
    let mut p: usize = 0;
    loop
        invariant
            p <= d@.len(),
            entry_slots(d@) == old_s,
            x == (h@, v@),
            forall|j: int| 0 <= j < p ==> slot_lt(#[trigger] old_s[j], x),
        ensures
            p <= d@.len(),
            entry_slots(d@) == old_s,
            forall|j: int| 0 <= j < p ==> slot_lt(#[trigger] old_s[j], x),
            p < d@.len() ==> !slot_lt(old_s[p as int], x),
        decreases d@.len() - p,
    {
        if p == d.len() {
            break;
        }
        let before = slot_before(d, p, &h, &v);
        if !before {
            break;
        }
        p = p + 1;
    }
    d.insert(p, (h, v));
    proof {
        assert(entry_slots(d@) =~= old_s.insert(p as int, x));
        lemma_insert_sorted(old_s, x, p as int);
    }
}

/// A queryable hash ring: slots sorted by digest, each slot covering the keys
/// from its own point up to the next slot's point (wrapping at the end).
pub struct HashRing {
    data: Vec<(Vec<u8>, VirtualNodeId)>,
}

impl View for HashRing {
    type V = Seq<Slot>;

    closed spec fn view(&self) -> Seq<Slot> {
        entry_slots(self.data@)
    }
}

impl HashRing {
    /// Sorted in ring order, every slot at the point of its name.
    pub open spec fn wf(&self) -> bool {
        sorted_slots(self@) && placed(self@)
    }

    /// The names of the virtual nodes on the ring.
    pub open spec fn names(&self) -> Set<Seq<char>> {
        slot_names(self@)
    }

    /// The number of slots.
    pub fn len(&self) -> (r: usize)
        ensures
            r == self@.len(),
    {
        self.data.len()
    }

    /// Builds the ring from a list of virtual nodes: one slot per entry of the
    /// list, sorted in ring order.
    pub fn from_nodes(nodes: Vec<VirtualNodeId>) -> (r: HashRing)
        ensures
            r.wf(),
            r@.len() == nodes@.len(),
            r.names() == id_names(nodes@),
            r@.to_multiset() == node_slots(nodes@).to_multiset(),
    {
        let mut data: Vec<(Vec<u8>, VirtualNodeId)> = Vec::new();
        let mut k: usize = 0;
        assert(entry_slots(data@) =~= node_slots(nodes@.subrange(0, 0)));
        while k < nodes.len()
            invariant
                k <= nodes@.len(),
                data@.len() == k,
                sorted_slots(entry_slots(data@)),
                placed(entry_slots(data@)),
                slot_names(entry_slots(data@)) == id_names(nodes@.subrange(0, k as int)),
                entry_slots(data@).to_multiset() == node_slots(nodes@.subrange(0, k as int)).to_multiset(),
            decreases nodes@.len() - k,
        {
            let v = nodes[k].duplicate();
            let h = v.as_sha256();
            let ghost before = entry_slots(data@);
            assert(v@ == nodes@[k as int]@);
            let ghost x: Slot = (h@, v@);
            insert_sorted(&mut data, h, v);
            proof {
                let after = entry_slots(data@);
                let p = choose|p: int| 0 <= p <= before.len() && after == before.insert(p, x) && sorted_slots(after);
                lemma_insert_members(before, x, p);
                vstd::seq_lib::to_multiset_insert(before, p, x);
                assert(node_slots(nodes@.subrange(0, k + 1)) =~= node_slots(nodes@.subrange(0, k as int)).push(x));
                vstd::seq_lib::to_multiset_build(node_slots(nodes@.subrange(0, k as int)), x);
                assert forall|i: int| 0 <= i < after.len() implies after[i].0 == vn_point(
                    after[i].1,
                ) by {
                    if after[i] != x {
                        let j = choose|j: int| 0 <= j < before.len() && before[j] == after[i];
                    }
                }
                let pre = nodes@.subrange(0, k as int);
                let post = nodes@.subrange(0, k + 1);
                assert forall|name: Seq<char>| #[trigger]
                    slot_names(after).contains(name) == id_names(post).contains(name) by {
                    if slot_names(after).contains(name) {
                        let i = choose|i: int| 0 <= i < after.len() && after[i].1 == name;
                        if after[i] == x {
                            assert(post[k as int]@ == name);
                        } else {
                            let j = choose|j: int| 0 <= j < before.len() && before[j] == after[i];
                            assert(slot_names(before).contains(name));
                            let q = choose|q: int| 0 <= q < pre.len() && pre[q]@ == name;
                            assert(post[q]@ == name);
                        }
                    }
                    if id_names(post).contains(name) {
                        let q = choose|q: int| 0 <= q < post.len() && post[q]@ == name;
                        if q == k {
                            let i = choose|i: int| 0 <= i < after.len() && after[i] == x;
                            assert(after[i].1 == name);
                        } else {
                            assert(pre[q]@ == name);
                            assert(id_names(pre).contains(name));
                            let j = choose|j: int| 0 <= j < before.len() && before[j].1 == name;
                            let i = choose|i: int| 0 <= i < after.len() && after[i] == before[j];
                            assert(after[i].1 == name);
                        }
                    }
                }
                assert(slot_names(after) =~= id_names(post));
            }
            k = k + 1;
        }
        assert(nodes@.subrange(0, nodes@.len() as int) =~= nodes@);
        HashRing { data }
    }

    /// A cursor at the slot that owns the given key.
    pub fn cursor<'r, K: RingKey>(&'r self, start: &K) -> (r: HashRingCursor<'r>)
        requires
            self.wf(),
            self@.len() > 0,
        ensures
            r.wf(),
            r@.0 == self@,
            owns(self@, start.ring_point(), r@.1),
    {
        HashRingCursor::new(self, start)
    }

    /// The range that holds the given key.
    pub fn range<K: RingKey>(&self, containing: &K) -> (r: HashRingRange)
        requires
            self.wf(),
            self@.len() > 0,
        ensures
            r.wf(),
            exists|i: int|
                owns(self@, containing.ring_point(), i) && r@.0 == self@[i].1 && r@.1 == self@[next_index(
                    i,
                    self@.len() as int,
                )].1,
    {
        self.cursor(containing).range()
    }
}

/// A cursor on the hash ring, pointing at one slot.
pub struct HashRingCursor<'r> {
    ring: &'r HashRing,
    i: usize,
}

impl<'r> View for HashRingCursor<'r> {
    type V = (Seq<Slot>, int);

    closed spec fn view(&self) -> (Seq<Slot>, int) {
        (self.ring@, self.i as int)
    }
}

impl<'r> HashRingCursor<'r> {
    pub open spec fn wf(&self) -> bool {
        sorted_slots(self@.0) && placed(self@.0) && 0 <= self@.1 < self@.0.len()
    }

    /// A cursor at the slot whose range holds the given key: the last slot at
    /// or before the key's point, or the last slot of all when the key lies
    /// before every slot.
    pub fn new<K: RingKey>(ring: &'r HashRing, at: &K) -> (r: HashRingCursor<'r>)
        requires
            ring.wf(),
            ring@.len() > 0,
        ensures
            r.wf(),
            r@.0 == ring@,
            owns(ring@, at.ring_point(), r@.1),
    {
        let h = at.as_sha256();
        let ghost s = ring@;
        let n = ring.data.len();
        let mut lo: usize = 0;
        let mut hi: usize = n;
        while lo < hi
            invariant
                s == ring@,
                n == s.len(),
                sorted_slots(s),
                0 <= lo <= hi <= n,
                forall|j: int| 0 <= j < lo ==> lex_le(#[trigger] s[j].0, h@),
                forall|j: int| hi <= j < n ==> lex_lt(h@, #[trigger] s[j].0),
            decreases hi - lo,
        {
            let mid = lo + (hi - lo) / 2;
            let c = compare_bytes(ring.data[mid].0.as_slice(), h.as_slice());
            assert(ring.data@[mid as int].0@ == s[mid as int].0);
            if c <= 0 {
                proof {
                    assert forall|j: int| 0 <= j < mid + 1 implies lex_le(#[trigger] s[j].0, h@) by {
                        lemma_sorted_points(s, j, mid as int);
                        lemma_lex_le_transitive(s[j].0, s[mid as int].0, h@);
                    }
                }
                lo = mid + 1;
            } else {
                proof {
                    assert forall|j: int| mid <= j < n implies lex_lt(h@, #[trigger] s[j].0) by {
                        lemma_sorted_points(s, mid as int, j);
                        if lex_lt(s[mid as int].0, s[j].0) {
                            lemma_lex_transitive(h@, s[mid as int].0, s[j].0);
                        }
                    }
                }
                hi = mid;
            }
        }
        let i = if lo > 0 { lo - 1 } else { n - 1 };
        HashRingCursor { ring, i }
    }

    /// The virtual node of the slot under the cursor.
    pub fn get(&self) -> (r: &'r VirtualNodeId)
        requires
            self.wf(),
        ensures
            r@ == self@.0[self@.1].1,
    {
        &self.ring.data[self.i].1
    }

    /// A cursor at the next slot, wrapping to the first.
    pub fn next(&self) -> (r: HashRingCursor<'r>)
        requires
            self.wf(),
        ensures
            r.wf(),
            r@ == (self@.0, next_index(self@.1, self@.0.len() as int)),
    {
        let n = self.ring.data.len();
        let i = if self.i + 1 < n { self.i + 1 } else { 0 };
        HashRingCursor { ring: self.ring, i }
    }

    /// A cursor at the previous slot, wrapping to the last.
    pub fn prev(&self) -> (r: HashRingCursor<'r>)
        requires
            self.wf(),
        ensures
            r.wf(),
            r@ == (self@.0, prev_index(self@.1, self@.0.len() as int)),
    {
        let n = self.ring.data.len();
        let i = if self.i == 0 { n - 1 } else { self.i - 1 };
        HashRingCursor { ring: self.ring, i }
    }

    /// The range of the slot under the cursor: from it to the next slot.
    pub fn range(&self) -> (r: HashRingRange)
        requires
            self.wf(),
        ensures
            r.wf(),
            r@.0 == self@.0[self@.1].1,
            r@.1 == self@.0[next_index(self@.1, self@.0.len() as int)].1,
    {
        let a = self.get().duplicate();
        let b = self.next().get().duplicate();
        HashRingRange::new(a, b)
    }
}

/// Stepping forward then back, or back then forward, returns to the same slot.
pub proof fn lemma_next_prev_inverse(i: int, n: int)
    requires
        0 <= i < n,
    ensures
        prev_index(next_index(i, n), n) == i,
        next_index(prev_index(i, n), n) == i,
{
}

/// A range of the ring between two virtual nodes: from the first one's point
/// (inclusive) to the second one's (exclusive).
pub struct HashRingRange {
    a_hash: Vec<u8>,
    b_hash: Vec<u8>,
    a: VirtualNodeId,
    b: VirtualNodeId,
}

impl View for HashRingRange {
    type V = (Seq<char>, Seq<char>, Seq<u8>, Seq<u8>);

    closed spec fn view(&self) -> (Seq<char>, Seq<char>, Seq<u8>, Seq<u8>) {
        (self.a@, self.b@, self.a_hash@, self.b_hash@)
    }
}

impl HashRingRange {
    /// Each end is kept with its own point.
    pub open spec fn wf(&self) -> bool {
        self@.2 == vn_point(self@.0) && self@.3 == vn_point(self@.1)
    }

    /// Whether the range holds the given point.
    pub open spec fn holds(&self, x: Seq<u8>) -> bool {
        range_contains(vn_point(self@.0), vn_point(self@.1), x)
    }

    fn new(a: VirtualNodeId, b: VirtualNodeId) -> (r: HashRingRange)
        ensures
            r.wf(),
            r@.0 == a@,
            r@.1 == b@,
    {
        let a_hash = a.as_sha256();
        let b_hash = b.as_sha256();
        HashRingRange { a_hash, b_hash, a, b }
    }

    /// The virtual node at the start of the range.
    pub fn start(&self) -> (r: &VirtualNodeId)
        ensures
            r@ == self@.0,
    {
        &self.a
    }

    /// Whether the given key lies in this range.
    pub fn contains<K: RingKey>(&self, pt: &K) -> (r: bool)
        requires
            self.wf(),
        ensures
            r == self.holds(pt.ring_point()),
    {
        let x = pt.as_sha256();
        let c = compare_bytes(self.a_hash.as_slice(), self.b_hash.as_slice());
        if c == 0 {
            false
        } else if c == -1 {
            compare_bytes(self.a_hash.as_slice(), x.as_slice()) <= 0 && compare_bytes(
                x.as_slice(),
                self.b_hash.as_slice(),
            ) == -1
        } else {
            compare_bytes(self.a_hash.as_slice(), x.as_slice()) <= 0 || compare_bytes(
                x.as_slice(),
                self.b_hash.as_slice(),
            ) == -1
        }
    }

    /// The part of this range from `vn` on: it starts at `vn` and keeps this
    /// range's end. `vn` must lie in the range.
    pub fn trim_start(&self, vn: VirtualNodeId) -> (r: HashRingRange)
        requires
            self.wf(),
            self.holds(vn_point(vn@)),
        ensures
            r.wf(),
            r@.0 == vn@,
            r@.1 == self@.1,
    {
        HashRingRange::new(vn, self.b.duplicate())
    }

    /// The part of this range from `vn` on, or `None` where `vn` lies outside it.
    pub fn try_trim_start(&self, vn: VirtualNodeId) -> (r: Option<HashRingRange>)
        requires
            self.wf(),
        ensures
            r.is_some() == self.holds(vn_point(vn@)),
            r matches Some(t) ==> t.wf() && t@.0 == vn@ && t@.1 == self@.1,
    {
        if self.contains(&vn) {
            Some(self.trim_start(vn))
        } else {
            None
        }
    }
}

} // verus!
