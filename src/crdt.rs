//! Conflict-free replicated data types: values with a merge that is
//! commutative, associative and idempotent, and the built-in ones.
use vstd::prelude::*;
use std::collections::{HashMap, HashSet};

verus! {

/// A conflict-free replicated data type.
///
/// Each implementation gives the abstract form of its values and the join of
/// two abstract values, and proves that the join is commutative, associative
/// and idempotent; `merge` and `merge_from` compute that join.
pub trait Crdt: Sized {
    type Model;

    /// The abstract form of the value.
    spec fn model(&self) -> Self::Model;

    /// The join of two abstract values.
    spec fn join(a: Self::Model, b: Self::Model) -> Self::Model;

    /// Merging in either order gives the same value.
    proof fn lemma_join_commutative(a: Self::Model, b: Self::Model)
        ensures
            Self::join(a, b) == Self::join(b, a),
    ;

    /// Grouping does not matter.
    proof fn lemma_join_associative(a: Self::Model, b: Self::Model, c: Self::Model)
        ensures
            Self::join(Self::join(a, b), c) == Self::join(a, Self::join(b, c)),
    ;

    /// Merging a value with itself gives the value.
    proof fn lemma_join_idempotent(a: Self::Model)
        ensures
            Self::join(a, a) == a,
    ;

    /// Takes the other value and merges it into this one.
    fn merge_from(&mut self, other: Self)
        ensures
            final(self).model() == Self::join(old(self).model(), other.model()),
    ;

    /// Merges the two values into a new one.
    fn merge(self, other: Self) -> (r: Self)
        ensures
            r.model() == Self::join(self.model(), other.model()),
    ;
}

/// A type that can be bound to a scope and kept by the store.
pub trait StoredCrdt: Crdt {
}

impl Crdt for () {
    type Model = ();

    open spec fn model(&self) -> () {
        ()
    }

    open spec fn join(a: (), b: ()) -> () {
        ()
    }

    proof fn lemma_join_commutative(a: (), b: ()) {
    }

    proof fn lemma_join_associative(a: (), b: (), c: ()) {
    }

    proof fn lemma_join_idempotent(a: ()) {
    }

    fn merge_from(&mut self, other: ()) {
    }

    fn merge(self, other: ()) -> (r: ()) {
    }
}

impl StoredCrdt for () {
}

/// Merge by picking the larger of two values.
#[derive(Copy, Clone, Debug, PartialEq, Eq, Structural)]
pub struct Max(pub u64);

impl Crdt for Max {
    type Model = u64;

    open spec fn model(&self) -> u64 {
        self.0
    }

    open spec fn join(a: u64, b: u64) -> u64 {
        if a < b {
            b
        } else {
            a
        }
    }

    proof fn lemma_join_commutative(a: u64, b: u64) {
    }

    proof fn lemma_join_associative(a: u64, b: u64, c: u64) {
    }

    proof fn lemma_join_idempotent(a: u64) {
    }

    fn merge_from(&mut self, other: Max) {
        if self.0 < other.0 {
            *self = other;
        }
    }

    fn merge(self, other: Max) -> (r: Max) {
        if self.0 < other.0 {
            other
        } else {
            self
        }
    }
}

impl StoredCrdt for Max {
}

/// Merge by picking the smaller of two values.
#[derive(Copy, Clone, Debug, PartialEq, Eq, Structural)]
pub struct Min(pub u64);

impl Crdt for Min {
    type Model = u64;

    open spec fn model(&self) -> u64 {
        self.0
    }

    open spec fn join(a: u64, b: u64) -> u64 {
        if a > b {
            b
        } else {
            a
        }
    }

    proof fn lemma_join_commutative(a: u64, b: u64) {
    }

    proof fn lemma_join_associative(a: u64, b: u64, c: u64) {
    }

    proof fn lemma_join_idempotent(a: u64) {
    }

    fn merge_from(&mut self, other: Min) {
        if self.0 > other.0 {
            *self = other;
        }
    }

    fn merge(self, other: Min) -> (r: Min) {
        if self.0 > other.0 {
            other
        } else {
            self
        }
    }
}

impl StoredCrdt for Min {
}

/// Merge by picking the value with the larger version, or by merging the
/// values where the versions are equal.
#[derive(Copy, Clone, Debug)]
pub struct Version<T>(pub u64, pub T);

impl<T: Crdt> Crdt for Version<T> {
    type Model = (u64, T::Model);

    open spec fn model(&self) -> (u64, T::Model) {
        (self.0, self.1.model())
    }

    open spec fn join(a: (u64, T::Model), b: (u64, T::Model)) -> (u64, T::Model) {
        if a.0 < b.0 {
            b
        } else if a.0 > b.0 {
            a
        } else {
            (a.0, T::join(a.1, b.1))
        }
    }

    proof fn lemma_join_commutative(a: (u64, T::Model), b: (u64, T::Model)) {
        T::lemma_join_commutative(a.1, b.1);
    }

    proof fn lemma_join_associative(a: (u64, T::Model), b: (u64, T::Model), c: (u64, T::Model)) {
        T::lemma_join_associative(a.1, b.1, c.1);
    }

    proof fn lemma_join_idempotent(a: (u64, T::Model)) {
        T::lemma_join_idempotent(a.1);
    }

    fn merge_from(&mut self, other: Version<T>) {
        if self.0 < other.0 {
            *self = other;
        } else if self.0 == other.0 {
            self.1.merge_from(other.1);
        }
    }

    fn merge(self, other: Version<T>) -> (r: Version<T>) {
        if self.0 < other.0 {
            other
        } else if self.0 > other.0 {
            self
        } else {
            Version(self.0, self.1.merge(other.1))
        }
    }
}

impl<T: StoredCrdt> StoredCrdt for Version<T> {
}

/// Merge two pairs by merging the left and the right values.
impl<A: Crdt, B: Crdt> Crdt for (A, B) {
    type Model = (A::Model, B::Model);

    open spec fn model(&self) -> (A::Model, B::Model) {
        (self.0.model(), self.1.model())
    }

    open spec fn join(a: (A::Model, B::Model), b: (A::Model, B::Model)) -> (A::Model, B::Model) {
        (A::join(a.0, b.0), B::join(a.1, b.1))
    }

    proof fn lemma_join_commutative(a: (A::Model, B::Model), b: (A::Model, B::Model)) {
        A::lemma_join_commutative(a.0, b.0);
        B::lemma_join_commutative(a.1, b.1);
    }

    proof fn lemma_join_associative(
        a: (A::Model, B::Model),
        b: (A::Model, B::Model),
        c: (A::Model, B::Model),
    ) {
        A::lemma_join_associative(a.0, b.0, c.0);
        B::lemma_join_associative(a.1, b.1, c.1);
    }

    proof fn lemma_join_idempotent(a: (A::Model, B::Model)) {
        A::lemma_join_idempotent(a.0);
        B::lemma_join_idempotent(a.1);
    }

    fn merge_from(&mut self, other: (A, B)) {
        let (o0, o1) = other;
        self.0.merge_from(o0);
        self.1.merge_from(o1);
    }

    fn merge(self, other: (A, B)) -> (r: (A, B)) {
        let (s0, s1) = self;
        let (o0, o1) = other;
        (s0.merge(o0), s1.merge(o1))
    }
}

impl<A: StoredCrdt, B: StoredCrdt> StoredCrdt for (A, B) {
}

/// Merge two sets by taking their union.
impl Crdt for HashSet<u64> {
    type Model = Set<u64>;

    open spec fn model(&self) -> Set<u64> {
        self@
    }

    open spec fn join(a: Set<u64>, b: Set<u64>) -> Set<u64> {
        a.union(b)
    }

    proof fn lemma_join_commutative(a: Set<u64>, b: Set<u64>) {
        assert(a.union(b) =~= b.union(a));
    }

    proof fn lemma_join_associative(a: Set<u64>, b: Set<u64>, c: Set<u64>) {
        assert(a.union(b).union(c) =~= a.union(b.union(c)));
    }

    proof fn lemma_join_idempotent(a: Set<u64>) {
        assert(a.union(a) =~= a);
    }

    fn merge_from(&mut self, other: HashSet<u64>) {
        broadcast use vstd::std_specs::hash::group_hash_axioms;

        let ghost start = self@;
        for x in it: other.iter()
            invariant
                vstd::std_specs::hash::obeys_key_model::<u64>(),
                vstd::std_specs::hash::builds_valid_hashers::<std::hash::RandomState>(),
                it.seq().unref().to_set() == other@,
                self@ == start.union(it.seq().unref().take(it.index() as int).to_set()),
                it.index() == it.seq().len() ==> self@ == start.union(other@),
        {
            assert(it.seq().unref()[it.index() as int] == *x);
            let ghost done = it.seq().unref().take(it.index() as int);
            self.insert(*x);
            proof {
                let next = it.seq().unref().take(it.index() + 1);
                assert(next =~= done.push(*x));
                assert(next.to_set() =~= done.to_set().insert(*x)) by {
                    assert forall|y: u64| next.to_set().contains(y) <==> done.to_set().insert(*x).contains(y) by {
                        if next.to_set().contains(y) {
                            let i = choose|i: int| 0 <= i < next.len() && next[i] == y;
                            if i < done.len() {
                                assert(done[i] == y);
                            }
                        }
                        if done.to_set().contains(y) {
                            let i = choose|i: int| 0 <= i < done.len() && done[i] == y;
                            assert(next[i] == y);
                        }
                        if y == *x {
                            assert(next[done.len() as int] == y);
                        }
                    }
                }
                assert(self@ =~= start.union(next.to_set()));
                assert(it.index() + 1 == it.seq().len() ==> next =~= it.seq().unref());
            }
        }
    }

    fn merge(self, other: HashSet<u64>) -> (r: HashSet<u64>) {
        let mut s = self;
        s.merge_from(other);
        s
    }
}

impl StoredCrdt for HashSet<u64> {
}

/// The per-index join of two sequences, as long as the longer one.
pub open spec fn join_seqs<T: Crdt>(a: Seq<T::Model>, b: Seq<T::Model>) -> Seq<T::Model> {
    Seq::new(
        if a.len() >= b.len() { a.len() } else { b.len() },
        |i: int|
            if i < a.len() && i < b.len() {
                T::join(a[i], b[i])
            } else if i < a.len() {
                a[i]
            } else {
                b[i]
            },
    )
}

pub open spec fn models<T: Crdt>(v: Seq<T>) -> Seq<T::Model> {
    v.map_values(|x: T| x.model())
}

/// Merge two vectors by merging the values at equal indices; the result is
/// as long as the longer input. This generalizes the merge of pairs.
impl<T: Crdt> Crdt for Vec<T> {
    type Model = Seq<T::Model>;

    open spec fn model(&self) -> Seq<T::Model> {
        models(self@)
    }

    open spec fn join(a: Seq<T::Model>, b: Seq<T::Model>) -> Seq<T::Model> {
        join_seqs::<T>(a, b)
    }

    proof fn lemma_join_commutative(a: Seq<T::Model>, b: Seq<T::Model>) {
        assert forall|i: int| 0 <= i < a.len() && 0 <= i < b.len() implies T::join(a[i], b[i]) == T::join(b[i], a[i]) by {
            T::lemma_join_commutative(a[i], b[i]);
        }
        assert(join_seqs::<T>(a, b) =~= join_seqs::<T>(b, a));
    }

    proof fn lemma_join_associative(a: Seq<T::Model>, b: Seq<T::Model>, c: Seq<T::Model>) {
        let l = join_seqs::<T>(join_seqs::<T>(a, b), c);
        let r = join_seqs::<T>(a, join_seqs::<T>(b, c));
        assert forall|i: int| 0 <= i < l.len() implies l[i] == r[i] by {
            if i < a.len() && i < b.len() && i < c.len() {
                T::lemma_join_associative(a[i], b[i], c[i]);
            }
        }
        assert(l =~= r);
    }

    proof fn lemma_join_idempotent(a: Seq<T::Model>) {
        assert forall|i: int| 0 <= i < a.len() implies T::join(a[i], a[i]) == a[i] by {
            T::lemma_join_idempotent(a[i]);
        }
        assert(join_seqs::<T>(a, a) =~= a);
    }

    fn merge_from(&mut self, other: Vec<T>) {
        let ghost a = models(self@);
        let ghost b = models(other@);
        let ghost orig = other@;
        let n = other.len();
        let mut other = other;
        let mut rev: Vec<T> = Vec::new();
        while other.len() > 0
            invariant
                models(self@) == a,
                n == orig.len(),
                rev@.len() + other@.len() == n,
                other@ == orig.take(other@.len() as int),
                forall|k: int| 0 <= k < rev@.len() ==> #[trigger] rev@[k] == orig[n - 1 - k],
            decreases other@.len(),
        {
            let x = other.pop().unwrap();
            rev.push(x);
            proof {
                assert(other@ =~= orig.take(other@.len() as int));
            }
        }
        let mut i: usize = 0;
        while rev.len() > 0
            invariant
                n == orig.len(),
                b == models(orig),
                rev@.len() + i == n,
                forall|k: int| 0 <= k < rev@.len() ==> #[trigger] rev@[k] == orig[n - 1 - k],
                models(self@) == join_seqs::<T>(a, b.take(i as int)),
            decreases rev@.len(),
        {
            let x = rev.pop().unwrap();
            let ghost pre = models(self@);
            assert(x == orig[i as int]);
            if i < self.len() {
                let cur = self.remove(i);
                let merged = cur.merge(x);
                self.insert(i, merged);
                proof {
                    assert(models(self@) =~= pre.update(i as int, T::join(pre[i as int], b[i as int])));
                }
            } else {
                self.push(x);
                proof {
                    assert(models(self@) =~= pre.push(b[i as int]));
                }
            }
            proof {
                assert(models(self@) =~= join_seqs::<T>(a, b.take(i + 1)));
            }
            i = i + 1;
        }
        proof {
            assert(b.take(n as int) =~= b);
        }
    }

    fn merge(self, other: Vec<T>) -> (r: Vec<T>) {
        let mut s = self;
        s.merge_from(other);
        s
    }
}

impl<T: StoredCrdt> StoredCrdt for Vec<T> {
}

/// The per-key join of two maps: every key of either, with the join of the
/// two values where both have the key.
pub open spec fn join_maps<T: Crdt>(a: Map<u64, T::Model>, b: Map<u64, T::Model>) -> Map<u64, T::Model> {
    Map::new(
        |k: u64| a.contains_key(k) || b.contains_key(k),
        |k: u64|
            if a.contains_key(k) && b.contains_key(k) {
                T::join(a[k], b[k])
            } else if a.contains_key(k) {
                a[k]
            } else {
                b[k]
            },
    )
}

pub open spec fn map_models<T: Crdt>(m: Map<u64, T>) -> Map<u64, T::Model> {
    m.map_values(|v: T| v.model())
}

/// Merge two maps by taking every key of either and merging the values of
/// keys that both hold.
impl<T: Crdt> Crdt for HashMap<u64, T> {
    type Model = Map<u64, T::Model>;

    open spec fn model(&self) -> Map<u64, T::Model> {
        map_models(self@)
    }

    open spec fn join(a: Map<u64, T::Model>, b: Map<u64, T::Model>) -> Map<u64, T::Model> {
        join_maps::<T>(a, b)
    }

    proof fn lemma_join_commutative(a: Map<u64, T::Model>, b: Map<u64, T::Model>) {
        assert forall|k: u64| a.contains_key(k) && b.contains_key(k) implies T::join(a[k], b[k]) == T::join(b[k], a[k]) by {
            T::lemma_join_commutative(a[k], b[k]);
        }
        assert(join_maps::<T>(a, b) =~= join_maps::<T>(b, a));
    }

    proof fn lemma_join_associative(a: Map<u64, T::Model>, b: Map<u64, T::Model>, c: Map<u64, T::Model>) {
        let l = join_maps::<T>(join_maps::<T>(a, b), c);
        let r = join_maps::<T>(a, join_maps::<T>(b, c));
        assert forall|k: u64| #[trigger] l.contains_key(k) implies l[k] == r[k] by {
            if a.contains_key(k) && b.contains_key(k) && c.contains_key(k) {
                T::lemma_join_associative(a[k], b[k], c[k]);
            }
        }
        assert(l =~= r);
    }

    proof fn lemma_join_idempotent(a: Map<u64, T::Model>) {
        assert forall|k: u64| #[trigger] a.contains_key(k) implies T::join(a[k], a[k]) == a[k] by {
            T::lemma_join_idempotent(a[k]);
        }
        assert(join_maps::<T>(a, a) =~= a);
    }

    fn merge_from(&mut self, other: HashMap<u64, T>) {
        broadcast use vstd::std_specs::hash::group_hash_axioms;

        let ghost a = map_models(self@);
        let ghost b = map_models(other@);
        let ghost orig = other@;
        let mut keys: Vec<u64> = Vec::new();
        for k in it: other.keys()
            invariant
                vstd::std_specs::hash::obeys_key_model::<u64>(),
                vstd::std_specs::hash::builds_valid_hashers::<std::hash::RandomState>(),
                it.seq().unref().to_set() == other@.dom(),
                it.seq().no_duplicates(),
                keys@ == it.seq().unref().take(it.index() as int),
                it.index() == it.seq().len() ==> keys@.to_set() == other@.dom() && keys@.no_duplicates(),
        {
            keys.push(*k);
            proof {
                assert(keys@ =~= it.seq().unref().take(it.index() + 1));
                assert(it.index() + 1 == it.seq().len() ==> keys@ =~= it.seq().unref());
                assert forall|x: int, y: int| 0 <= x < y < it.seq().len() implies it.seq().unref()[x] != it.seq().unref()[y] by {
                    assert(it.seq()[x] != it.seq()[y]);
                }
            }
        }
        let mut other = other;
        let mut i: usize = 0;
        while i < keys.len()
            invariant
                vstd::std_specs::hash::obeys_key_model::<u64>(),
                vstd::std_specs::hash::builds_valid_hashers::<std::hash::RandomState>(),
                keys@.to_set() == orig.dom(),
                keys@.no_duplicates(),
                i <= keys@.len(),
                b == map_models(orig),
                forall|j: int| i <= j < keys@.len() ==> #[trigger] other@.contains_key(keys@[j]) && other@[keys@[j]] == orig[keys@[j]],
                map_models(self@) == join_maps::<T>(a, b.restrict(keys@.take(i as int).to_set())),
            decreases keys@.len() - i,
        {
            let k = keys[i];
            let v = other.remove(&k).unwrap();
            let ghost pre = map_models(self@);
            let ghost s0 = self@;
            let old_v = self.remove(&k);
            let ghost s1 = self@;
            let ghost mut nm: T::Model = vstd::pervasive::arbitrary();
            match old_v {
                Some(cur) => {
                    let w = cur.merge(v);
                    proof {
                        nm = w.model();
                    }
                    self.insert(k, w);
                },
                None => {
                    proof {
                        nm = v.model();
                    }
                    self.insert(k, v);
                },
            }
            proof {
                assert(s1 =~= s0.remove(k));
                assert(map_models(s1) =~= pre.remove(k));
                assert(map_models(self@) =~= map_models(s1).insert(k, nm));
                assert(map_models(self@) == pre.remove(k).insert(k, nm));
                assert(nm == if s0.contains_key(k) { T::join(pre[k], b[k]) } else { b[k] });
            }
            proof {
                assert forall|j: int| i + 1 <= j < keys@.len() implies #[trigger] other@.contains_key(keys@[j]) && other@[keys@[j]] == orig[keys@[j]] by {
                    assert(keys@[j] != keys@[i as int]);
                }
                let done = keys@.take(i as int).to_set();
                let done2 = keys@.take(i + 1).to_set();
                assert(done2 =~= done.insert(k)) by {
                    let t = keys@.take(i as int);
                    let t2 = keys@.take(i + 1);
                    assert(t2 =~= t.push(k));
                    assert forall|x: u64| done2.contains(x) <==> done.insert(k).contains(x) by {
                        if done2.contains(x) {
                            let j = choose|j: int| 0 <= j < t2.len() && t2[j] == x;
                            if j < i {
                                assert(t[j] == x);
                            }
                        }
                        if done.contains(x) {
                            let j = choose|j: int| 0 <= j < t.len() && t[j] == x;
                            assert(t2[j] == x);
                        }
                        if x == k {
                            assert(t2[i as int] == x);
                        }
                    }
                }
                assert(!done.contains(k)) by {
                    if done.contains(k) {
                        let j = choose|j: int| 0 <= j < i && keys@.take(i as int)[j] == k;
                        assert(keys@[j] == keys@[i as int]);
                    }
                }
                let target = join_maps::<T>(a, b.restrict(done2));
                assert(b.contains_key(k));
                assert(v.model() == b[k]);
                let prev = join_maps::<T>(a, b.restrict(done));
                assert(pre == prev);
                assert(prev.contains_key(k) == a.contains_key(k));
                assert(a.contains_key(k) ==> prev[k] == a[k]);
                assert forall|q: u64| #[trigger] target.contains_key(q) <==> map_models(self@).contains_key(q) by {
                    if q != k {
                        assert(target.contains_key(q) == prev.contains_key(q));
                    }
                }
                assert(s0.contains_key(k) == pre.contains_key(k));
                assert(b.restrict(done2).contains_key(k) && b.restrict(done2)[k] == b[k]);
                assert(map_models(self@)[k] == nm);
                if a.contains_key(k) {
                    assert(target[k] == T::join(a[k], b[k]));
                } else {
                    assert(target[k] == b[k]);
                }
                assert forall|q: u64| #[trigger] target.contains_key(q) implies map_models(self@)[q] == target[q] by {
                    if q != k {
                        assert(target[q] == prev[q]);
                    }
                }
                assert(pre.remove(k).insert(k, nm) =~= target);
            }
            i = i + 1;
        }
        proof {
            assert(keys@.take(keys@.len() as int) =~= keys@);
            assert(b.restrict(keys@.to_set()) =~= b);
        }
    }

    fn merge(self, other: HashMap<u64, T>) -> (r: HashMap<u64, T>) {
        let mut s = self;
        s.merge_from(other);
        s
    }
}

impl<T: StoredCrdt> StoredCrdt for HashMap<u64, T> {
}

} // verus!
