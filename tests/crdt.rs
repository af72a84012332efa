use haze::crdt::{Crdt, Max, Min, Version};
use std::collections::{HashMap, HashSet};

fn set(xs: &[u64]) -> HashSet<u64> {
    xs.iter().copied().collect()
}

#[test]
fn max_picks_the_larger() {
    assert_eq!(Max(3).merge(Max(5)), Max(5));
    assert_eq!(Max(5).merge(Max(3)), Max(5));
    let mut m = Max(7);
    m.merge_from(Max(2));
    assert_eq!(m, Max(7));
    m.merge_from(Max(9));
    assert_eq!(m, Max(9));
}

#[test]
fn min_picks_the_smaller() {
    assert_eq!(Min(3).merge(Min(5)), Min(3));
    let mut m = Min(7);
    m.merge_from(Min(2));
    assert_eq!(m, Min(2));
    m.merge_from(Min(4));
    assert_eq!(m, Min(2));
}

#[test]
fn version_higher_wins_equal_merges() {
    let a = Version(2, Max(1));
    let b = Version(1, Max(100));
    assert_eq!(a.merge(b).0, 2);
    assert_eq!(Version(2, Max(1)).merge(Version(1, Max(100))).1, Max(1));
    assert_eq!(Version(1, Max(100)).merge(Version(2, Max(1))).1, Max(1));
    let c = Version(3, Max(4)).merge(Version(3, Max(6)));
    assert_eq!((c.0, c.1), (3, Max(6)));
    let mut d = Version(3, Max(9));
    d.merge_from(Version(3, Max(6)));
    assert_eq!((d.0, d.1), (3, Max(9)));
}

#[test]
fn pairs_merge_componentwise() {
    let p = (Max(1), Min(1)).merge((Max(2), Min(2)));
    assert_eq!(p, (Max(2), Min(1)));
    let mut q = (Max(5), Min(5));
    q.merge_from((Max(3), Min(3)));
    assert_eq!(q, (Max(5), Min(3)));
    let _: () = ().merge(());
}

#[test]
fn sets_merge_by_union() {
    assert_eq!(set(&[1, 2]).merge(set(&[2, 3])), set(&[1, 2, 3]));
    let mut s = set(&[]);
    s.merge_from(set(&[4]));
    assert_eq!(s, set(&[4]));
    s.merge_from(set(&[]));
    assert_eq!(s, set(&[4]));
}

#[test]
fn merge_is_commutative_on_samples() {
    for a in 0..5u64 {
        for b in 0..5u64 {
            assert_eq!(Max(a).merge(Max(b)), Max(b).merge(Max(a)));
            assert_eq!(Min(a).merge(Min(b)), Min(b).merge(Min(a)));
            assert_eq!(set(&[a]).merge(set(&[b])), set(&[b]).merge(set(&[a])));
            let x = Version(a % 2, set(&[a])).merge(Version(b % 2, set(&[b])));
            let y = Version(b % 2, set(&[b])).merge(Version(a % 2, set(&[a])));
            assert_eq!((x.0, x.1), (y.0, y.1));
        }
    }
}

#[test]
fn merge_is_associative_on_samples() {
    for a in 0..4u64 {
        for b in 0..4u64 {
            for c in 0..4u64 {
                assert_eq!(Max(a).merge(Max(b)).merge(Max(c)), Max(a).merge(Max(b).merge(Max(c))));
                assert_eq!(Min(a).merge(Min(b)).merge(Min(c)), Min(a).merge(Min(b).merge(Min(c))));
                let l = Version(a % 2, set(&[a])).merge(Version(b % 2, set(&[b]))).merge(Version(c % 2, set(&[c])));
                let r = Version(a % 2, set(&[a])).merge(Version(b % 2, set(&[b])).merge(Version(c % 2, set(&[c]))));
                assert_eq!((l.0, l.1), (r.0, r.1));
            }
        }
    }
}

#[test]
fn merge_is_idempotent_on_samples() {
    for a in 0..5u64 {
        assert_eq!(Max(a).merge(Max(a)), Max(a));
        assert_eq!(Min(a).merge(Min(a)), Min(a));
        assert_eq!(set(&[a, a + 1]).merge(set(&[a, a + 1])), set(&[a, a + 1]));
    }
    assert_eq!(Max(u64::MAX).merge(Max(u64::MAX)), Max(u64::MAX));
}

#[test]
fn vectors_merge_per_index_and_extend() {
    let a = vec![Max(1), Max(7)];
    let b = vec![Max(5), Max(2), Max(9)];
    assert_eq!(a.clone().merge(b.clone()), vec![Max(5), Max(7), Max(9)]);
    assert_eq!(b.clone().merge(a.clone()), vec![Max(5), Max(7), Max(9)]);
    let mut c: Vec<Max> = vec![];
    c.merge_from(a.clone());
    assert_eq!(c, a);
    c.merge_from(vec![]);
    assert_eq!(c, a);
    assert_eq!(a.clone().merge(a.clone()), a);
}

#[test]
fn maps_merge_per_key() {
    let a: HashMap<u64, Max> = [(1, Max(1)), (2, Max(8))].into_iter().collect();
    let b: HashMap<u64, Max> = [(2, Max(3)), (3, Max(4))].into_iter().collect();
    let expected: HashMap<u64, Max> = [(1, Max(1)), (2, Max(8)), (3, Max(4))].into_iter().collect();
    assert_eq!(a.clone().merge(b.clone()), expected);
    assert_eq!(b.clone().merge(a.clone()), expected);
    let mut c: HashMap<u64, Max> = HashMap::new();
    c.merge_from(a.clone());
    assert_eq!(c, a);
    assert_eq!(a.clone().merge(a.clone()), a);
    let nested: HashMap<u64, HashSet<u64>> = [(1, set(&[1]))].into_iter().collect();
    let other: HashMap<u64, HashSet<u64>> = [(1, set(&[2]))].into_iter().collect();
    assert_eq!(nested.merge(other)[&1], set(&[1, 2]));
}
