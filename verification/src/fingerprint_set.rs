//! A set of fingerprints.
use crate::rle::as_ints;
use std::collections::HashMap;
use vstd::prelude::*;
use vstd::std_specs::hash::*;

verus! {

broadcast use vstd::std_specs::hash::group_hash_axioms;

pub const DIGEST_BASIS: u64 = 14695981039346656037;

pub const DIGEST_PRIME: u64 = 1099511628211;

/// One step of the digest: the digest so far, multiplied and moved on by the
/// next entry, all modulo 2^64.
pub open spec fn mix(h: u64, v: isize) -> u64 {
    h.wrapping_mul(DIGEST_PRIME).wrapping_add((v as i128 + 0x8000_0000_0000_0000i128) as u64)
}

/// The digest of a fingerprint: the number of the bucket that holds it.
pub open spec fn digest(f: Seq<isize>) -> u64
    decreases f.len(),
{
    if f.len() == 0 {
        DIGEST_BASIS
    } else {
        mix(digest(f.drop_last()), f.last())
    }
}

/// Whether the bucket `k` of `m` holds at place `i` the fingerprint `f`.
pub open spec fn held_at(m: Map<u64, Vec<Vec<isize>>>, k: u64, i: int, f: Seq<int>) -> bool {
    m.contains_key(k) && 0 <= i < m[k]@.len() && as_ints(m[k]@[i]@) == f
}

/// Machine-integer sequences with the same entries are the same sequence.
pub proof fn lemma_as_ints_injective(a: Seq<isize>, b: Seq<isize>)
    requires
        as_ints(a) == as_ints(b),
    ensures
        a == b,
{
    assert(a.len() == as_ints(a).len());
    assert(b.len() == as_ints(b).len());
    assert forall|i: int| 0 <= i < a.len() implies a[i] == b[i] by {
        assert(as_ints(a)[i] == a[i] as int);
        assert(as_ints(b)[i] == b[i] as int);
    }
    assert(a =~= b);
}

/// A set of fingerprints. Fingerprints are kept in buckets, each under the
/// digest of the fingerprints it holds, so that a lookup compares only the
/// few fingerprints that share a digest.
pub struct FingerprintSet {
    buckets: HashMap<u64, Vec<Vec<isize>>>,
}

impl View for FingerprintSet {
    type V = Set<Seq<int>>;

    closed spec fn view(&self) -> Set<Seq<int>> {
        Set::new(|f: Seq<int>| exists|k: u64, i: int| #[trigger] held_at(self.buckets@, k, i, f))
    }
}

/// Computes one step of the digest.
fn mix_step(h: u64, v: isize) -> (r: u64)
    ensures
        r == mix(h, v),
{
    h.wrapping_mul(DIGEST_PRIME).wrapping_add((v as i128 + 0x8000_0000_0000_0000i128) as u64)
}

/// Computes the digest of a fingerprint.
fn digest_of(f: &Vec<isize>) -> (h: u64)
    ensures
        h == digest(f@),
{
    let mut h: u64 = DIGEST_BASIS;
    let mut i: usize = 0;
    assert(f@.take(0) =~= Seq::<isize>::empty());
    while i < f.len()
        invariant
            i <= f@.len(),
            h == digest(f@.take(i as int)),
        decreases f@.len() - i,
    {
        proof {
            assert(f@.take(i + 1).drop_last() =~= f@.take(i as int));
        }
        h = mix_step(h, f[i]);
        i += 1;
    }
    proof {
        assert(f@.take(f@.len() as int) =~= f@);
    }
    h
}

/// Decides whether two fingerprints are the same.
fn same(a: &Vec<isize>, b: &Vec<isize>) -> (r: bool)
    ensures
        r == (a@ == b@),
{
    if a.len() != b.len() {
        return false;
    }
    let mut i: usize = 0;
    while i < a.len()
        invariant
            a@.len() == b@.len(),
            i <= a@.len(),
            forall|j: int| 0 <= j < i ==> a@[j] == b@[j],
        decreases a@.len() - i,
    {
        if a[i] != b[i] {
            return false;
        }
        i += 1;
    }
    assert(a@ =~= b@);
    true
}

/// Decides whether a bucket holds a fingerprint.
fn bucket_holds(bucket: &Vec<Vec<isize>>, f: &Vec<isize>) -> (r: bool)
    ensures
        r == exists|i: int| 0 <= i < bucket@.len() && (#[trigger] bucket@[i])@ == f@,
{
    let mut i: usize = 0;
    while i < bucket.len()
        invariant
            i <= bucket@.len(),
            forall|j: int| 0 <= j < i ==> (#[trigger] bucket@[j])@ != f@,
        decreases bucket@.len() - i,
    {
        if same(&bucket[i], f) {
            return true;
        }
        i += 1;
    }
    false
}

impl FingerprintSet {
    /// Whether every fingerprint lies in the bucket of its digest. Every set
    /// that this module hands out is well formed.
    pub closed spec fn wf(&self) -> bool {
        forall|k: u64, i: int|
            self.buckets@.contains_key(k) && 0 <= i < self.buckets@[k]@.len() ==> digest(
                (#[trigger] self.buckets@[k]@[i])@,
            ) == k
    }

    /// The set without fingerprints.
    pub fn new() -> (s: FingerprintSet)
        ensures
            s@ == Set::<Seq<int>>::empty(),
            s.wf(),
    {
        let s = FingerprintSet { buckets: HashMap::new() };
        assert(s@ =~= Set::<Seq<int>>::empty());
        s
    }

    /// Decides whether the set holds the fingerprint `f`.
    pub fn contains(&self, f: &Vec<isize>) -> (r: bool)
        requires
            self.wf(),
        ensures
            r == self@.contains(as_ints(f@)),
    {
        let k = digest_of(f);
        let r = match self.buckets.get(&k) {
            None => false,
            Some(bucket) => bucket_holds(bucket, f),
        };
        proof {
            let m = self.buckets@;
            if r {
                let i = choose|i: int| 0 <= i < m[k]@.len() && (#[trigger] m[k]@[i])@ == f@;
                assert(held_at(m, k, i, as_ints(f@)));
            }
            if self@.contains(as_ints(f@)) {
                let (j, i) = choose|j: u64, i: int| #[trigger] held_at(m, j, i, as_ints(f@));
                lemma_as_ints_injective(m[j]@[i]@, f@);
                assert(j == k);
            }
        }
        r
    }

    /// Adds the fingerprint `f` to the set, and says whether it was new.
    pub fn insert(&mut self, f: Vec<isize>) -> (fresh: bool)
        requires
            old(self).wf(),
        ensures
            final(self).wf(),
            final(self)@ == old(self)@.insert(as_ints(f@)),
            fresh == !old(self)@.contains(as_ints(f@)),
    {
        if self.contains(&f) {
            assert(self@ =~= self@.insert(as_ints(f@)));
            return false;
        }
        let k = digest_of(&f);
        let ghost before = self.buckets@;
        let ghost print = as_ints(f@);
        let mut bucket: Vec<Vec<isize>> = match self.buckets.remove(&k) {
            Some(b) => b,
            None => Vec::new(),
        };
        let ghost was = bucket@;
        bucket.push(f);
        self.buckets.insert(k, bucket);
        proof {
            let after = self.buckets@;
            assert(after == before.remove(k).insert(k, bucket));
            assert(before.contains_key(k) ==> before[k]@ == was);
            assert(!before.contains_key(k) ==> was.len() == 0);
            assert forall|g: Seq<int>| #[trigger]
                self@.contains(g) <==> old(self)@.insert(print).contains(g) by {
                if old(self)@.contains(g) {
                    let (j, i) = choose|j: u64, i: int| #[trigger] held_at(before, j, i, g);
                    assert(held_at(after, j, i, g));
                }
                if g == print {
                    assert(held_at(after, k, was.len() as int, g));
                }
                if self@.contains(g) && g != print {
                    let (j, i) = choose|j: u64, i: int| #[trigger] held_at(after, j, i, g);
                    assert(held_at(before, j, i, g));
                }
            }
            assert(self@ =~= old(self)@.insert(print));
        }
        true
    }
}

} // verus!
