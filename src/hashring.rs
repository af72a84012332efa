//! A basic consistent hash ring of members, each placed by the first 16
//! bytes of the SHA-256 digest of its name, read as a big-endian number.
use vstd::prelude::*;
use vstd::utf8::encode_utf8;
use crate::ring::{sha256, sha256_of};

verus! {

/// The big-endian number that the bytes spell.
pub open spec fn be_value(s: Seq<u8>) -> nat
    decreases s.len(),
{
    if s.len() == 0 {
        0
    } else {
        be_value(s.drop_last()) * 256 + s.last() as nat
    }
}

pub open spec fn pow256(n: nat) -> nat
    decreases n,
{
    if n == 0 {
        1
    } else {
        pow256((n - 1) as nat) * 256
    }
}

/// The place of a name or key on the member ring.
pub open spec fn member_point(data: Seq<u8>) -> nat {
    be_value(sha256_of(data).take(16))
}

proof fn lemma_pow256_16()
    ensures
        pow256(16) == u128::MAX as nat + 1,
{
    reveal_with_fuel(pow256, 17);
}

proof fn lemma_pow256_monotonic(a: nat, b: nat)
    requires
        a <= b,
    ensures
        pow256(a) <= pow256(b),
    decreases b,
{
    if a < b {
        lemma_pow256_monotonic(a, (b - 1) as nat);
    }
}

/// The first 16 bytes of the digest of `key`, as a big-endian number.
fn sha256_u128(key: &[u8]) -> (r: u128)
    ensures
        r as nat == member_point(key@),
{
    let hash = sha256(key);
    let mut acc: u128 = 0;
    let mut i: usize = 0;
    while i < 16
        invariant
            hash@.len() == 32,
            hash@ == sha256_of(key@),
            i <= 16,
            acc as nat == be_value(hash@.take(i as int)),
            (acc as nat) < pow256(i as nat),
        decreases 16 - i,
    {
        proof {
            lemma_pow256_monotonic((i + 1) as nat, 16);
            lemma_pow256_16();
            let p = pow256(i as nat);
            let a = acc as nat;
            let b = hash@[i as int] as nat;
            assert(a * 256 + b < p * 256) by (nonlinear_arith)
                requires
                    a < p,
                    b < 256,
            ;
            assert(hash@.take(i + 1).drop_last() =~= hash@.take(i as int));
        }
        acc = acc * 256 + hash[i] as u128;
        i = i + 1;
    }
    acc
}

/// The members before `p` lie before `at`, the others at or after it.
pub open spec fn splits_at<M>(s: Seq<(u128, M)>, at: nat, p: int) -> bool {
    &&& 0 <= p <= s.len()
    &&& forall|j: int| 0 <= j < p ==> ((#[trigger] s[j]).0 as nat) < at
    &&& forall|j: int| p <= j < s.len() ==> (#[trigger] s[j]).0 as nat >= at
}

/// A consistent hash ring of members, each at a distinct point.
pub struct HashRing<M> {
    ring: Vec<(u128, M)>,
}

impl<M> View for HashRing<M> {
    type V = Seq<(u128, M)>;

    closed spec fn view(&self) -> Seq<(u128, M)> {
        self.ring@
    }
}

impl<M> HashRing<M> {
    /// Points strictly increase along the ring.
    pub open spec fn wf(&self) -> bool {
        forall|i: int, j: int| 0 <= i < j < self@.len() ==> self@[i].0 < self@[j].0
    }

    /// Whether some member sits at `p`.
    pub open spec fn holds_point(&self, p: nat) -> bool {
        exists|i: int| 0 <= i < self@.len() && self@[i].0 == p
    }

    /// An empty ring.
    pub fn new() -> (r: HashRing<M>)
        ensures
            r.wf(),
            r@.len() == 0,
    {
        HashRing { ring: Vec::new() }
    }

    /// Adds `member` under the stable name `name`. A second member at the
    /// point of an existing one is a configuration error: the ring is left
    /// unchanged and `false` returned.
    pub fn add_member(&mut self, name: &str, member: M) -> (r: bool)
        requires
            old(self).wf(),
        ensures
            final(self).wf(),
            r == !old(self).holds_point(member_point(encode_utf8(name@))),
            !r ==> final(self)@ == old(self)@,
            r ==> exists|p: int|
                0 <= p <= old(self)@.len() && final(self)@ == #[trigger] old(self)@.insert(
                    p,
                    (member_point(encode_utf8(name@)) as u128, member),
                ),
    {
        let id = sha256_u128(name.as_bytes());
        let mut p: usize = 0;
        while p < self.ring.len() && self.ring[p].0 < id
            invariant
                self.wf(),
                p <= self@.len(),
                forall|j: int| 0 <= j < p ==> (#[trigger] self@[j]).0 < id,
            decreases self@.len() - p,
        {
            p = p + 1;
        }
        if p < self.ring.len() && self.ring[p].0 == id {
            return false;
        }
        let ghost before = self@;
        proof {
            assert forall|j: int| 0 <= j < before.len() implies (#[trigger] before[j]).0 != id by {
                if j > p {
                    assert(before[p as int].0 < before[j].0);
                }
            }
        }
        self.ring.insert(p, (id, member));
        proof {
            let s = self@;
            assert(s =~= before.insert(p as int, (id, member)));
            assert forall|i: int, j: int| 0 <= i < j < s.len() implies s[i].0 < s[j].0 by {
                let i0 = if i < p { i } else if i == p { -1 } else { i - 1 };
                let j0 = if j < p { j } else if j == p { -1 } else { j - 1 };
                if i != p && j != p {
                    assert(s[i] == before[i0] && s[j] == before[j0]);
                } else if i == p {
                    assert(s[j] == before[j - 1]);
                    assert(before[p as int].0 >= id);
                    if j - 1 > p {
                        assert(before[p as int].0 < before[j - 1].0);
                    }
                } else {
                    assert(s[i] == before[i]);
                }
            }
        }
        true
    }

    /// A ring of the given members, or `None` when two of them share a point.
    pub fn from_members(mems: Vec<(String, M)>) -> (r: Option<HashRing<M>>)
        ensures
            r matches Some(ring) ==> ring.wf() && ring@.len() == mems@.len(),
    {
        let mut ring = HashRing::new();
        let mut mems = mems;
        let total = mems.len();
        let mut rev: Vec<(String, M)> = Vec::new();
        while mems.len() > 0
            invariant
                rev@.len() + mems@.len() == total,
            decreases mems@.len(),
        {
            let x = mems.pop().unwrap();
            rev.push(x);
        }
        let n = rev.len();
        while rev.len() > 0
            invariant
                ring.wf(),
                ring@.len() + rev@.len() == n,
            decreases rev@.len(),
        {
            let (name, member) = rev.pop().unwrap();
            if !ring.add_member(name.as_str(), member) {
                return None;
            }
        }
        Some(ring)
    }

    /// Every member, starting from the first one at or after the point of
    /// `key` and going round the ring.
    pub fn lookup(&self, key: &[u8]) -> (r: Vec<&M>)
        requires
            self.wf(),
        ensures
            r@.len() == self@.len(),
            exists|p: int|
                #[trigger] splits_at(self@, member_point(key@), p) && forall|j: int|
                    0 <= j < r@.len() ==> *#[trigger] r@[j] == self@[(p + j) % (self@.len() as int)].1,
    {
        let at = sha256_u128(key);
        let n = self.ring.len();
        let mut p: usize = 0;
        while p < n && self.ring[p].0 < at
            invariant
                n == self@.len(),
                p <= n,
                forall|j: int| 0 <= j < p ==> (#[trigger] self@[j]).0 < at,
            decreases n - p,
        {
            p = p + 1;
        }
        proof {
            assert forall|j: int| p <= j < n implies (#[trigger] self@[j]).0 >= at by {
                if j > p {
                    assert(self@[p as int].0 < self@[j].0);
                }
            }
        }
        assert(splits_at(self@, member_point(key@), p as int));
        let mut out: Vec<&M> = Vec::new();
        let mut k: usize = 0;
        while k < n
            invariant
                n == self@.len(),
                p <= n,
                k <= n,
                out@.len() == k,
                forall|j: int| 0 <= j < k ==> *#[trigger] out@[j] == self@[(p + j) % (n as int)].1,
            decreases n - k,
        {
            let idx = if k < n - p { p + k } else { k - (n - p) };
            proof {
                if k < n - p {
                    assert((p + k) as int % (n as int) == (p + k) as int) by (nonlinear_arith)
                        requires 0 <= p + k < n;
                } else {
                    assert((p + k) as int % (n as int) == (p + k - n) as int) by (nonlinear_arith)
                        requires n <= p + k < 2 * n;
                }
            }
            out.push(&self.ring[idx].1);
            k = k + 1;
        }
        out
    }
}

} // verus!
