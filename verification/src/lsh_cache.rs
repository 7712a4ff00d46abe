//! The LSH dispatcher: signature-routed buckets of bounded caches.
//!
//! A locality-sensitive hash of a key — a fixed-length bit signature — picks
//! the one bucket a query is answered from. The dispatcher owns the buckets
//! and is generic over their policy: any cache that can be built from a
//! capacity. Computing a signature takes floating-point dot products against
//! the projector's random hyperplanes, which the verified core cannot do, so
//! the signature enters here as an explicit argument; the embedder pairs this
//! dispatcher with its projector and passes the projector's output through.

use core::marker::PhantomData;

use vstd::pervasive::cloned;
use vstd::prelude::*;

use crate::approximate_cache::{
    best_in, ApproximateCache, CacheLine, DefaultApproximateCache,
};
use crate::comp::ApproxComparable;
use crate::fifo_cache::FifoCache;
use crate::float_bits::is_valid_tolerance;
use crate::lru_cache::LRUCache;

verus! {

/// The index of the first signature of `sigs` equal to `sig`, or `None`.
pub open spec fn sig_index(sigs: Seq<Seq<bool>>, sig: Seq<bool>) -> Option<int>
    decreases sigs.len(),
{
    if sigs.len() == 0 {
        None
    } else if sigs[0] == sig {
        Some(0)
    } else {
        match sig_index(sigs.drop_first(), sig) {
            Option::None => None,
            Option::Some(i) => Some(i + 1),
        }
    }
}

/// `sig_index` selects the least index carrying the signature.
pub proof fn lemma_sig_index(sigs: Seq<Seq<bool>>, sig: Seq<bool>)
    ensures
        sig_index(sigs, sig) is Some <==> exists|j: int| 0 <= j < sigs.len() && sigs[j] == sig,
        sig_index(sigs, sig) matches Some(i) ==> {
            &&& 0 <= i < sigs.len()
            &&& sigs[i] == sig
            &&& forall|j: int| 0 <= j < i ==> sigs[j] != sig
        },
    decreases sigs.len(),
{
    if sigs.len() > 0 {
        lemma_sig_index(sigs.drop_first(), sig);
        assert(forall|j: int| 0 <= j < sigs.len() - 1 ==> sigs.drop_first()[j] == sigs[j + 1]);
        if sigs[0] != sig && sig_index(sigs, sig) is Some {
            let i = sig_index(sigs, sig)->Some_0;
            assert(sigs.drop_first()[i - 1] == sig);
            assert forall|j: int| 0 <= j < i implies sigs[j] != sig by {
                if j > 0 {
                    assert(sigs.drop_first()[j - 1] == sigs[j]);
                }
            }
        }
        if sigs[0] != sig && (exists|j: int| 0 <= j < sigs.len() && sigs[j] == sig) {
            let j = choose|j: int| 0 <= j < sigs.len() && sigs[j] == sig;
            assert(sigs.drop_first()[j - 1] == sig);
        }
    }
}

/// The least index carrying the signature is what `sig_index` returns.
proof fn lemma_sig_index_unique(sigs: Seq<Seq<bool>>, sig: Seq<bool>, i: int)
    requires
        0 <= i < sigs.len(),
        sigs[i] == sig,
        forall|j: int| 0 <= j < i ==> sigs[j] != sig,
    ensures
        sig_index(sigs, sig) == Some(i),
    decreases sigs.len(),
{
    if i > 0 {
        assert(forall|j: int| 0 <= j < sigs.len() - 1 ==> sigs.drop_first()[j] == sigs[j + 1]);
        lemma_sig_index_unique(sigs.drop_first(), sig, i - 1);
    }
}

/// The number of lines held across all buckets.
pub open spec fn total_lines<K, V>(buckets: Seq<Seq<CacheLine<K, V>>>) -> nat
    decreases buckets.len(),
{
    if buckets.len() == 0 {
        0
    } else {
        total_lines(buckets.drop_last()) + buckets.last().len()
    }
}

/// Updating one bucket moves the total by the difference of that bucket.
proof fn lemma_total_lines_update<K, V>(
    buckets: Seq<Seq<CacheLine<K, V>>>,
    i: int,
    b: Seq<CacheLine<K, V>>,
)
    requires
        0 <= i < buckets.len(),
    ensures
        total_lines(buckets.update(i, b)) + buckets[i].len() == total_lines(buckets) + b.len(),
    decreases buckets.len(),
{
    if i == buckets.len() - 1 {
        assert(buckets.update(i, b).drop_last() =~= buckets.drop_last());
    } else {
        assert(buckets.update(i, b).drop_last() =~= buckets.drop_last().update(i, b));
        lemma_total_lines_update(buckets.drop_last(), i, b);
    }
}

/// Appending a bucket adds its lines to the total.
proof fn lemma_total_lines_push<K, V>(
    buckets: Seq<Seq<CacheLine<K, V>>>,
    b: Seq<CacheLine<K, V>>,
)
    ensures
        total_lines(buckets.push(b)) == total_lines(buckets) + b.len(),
{
    assert(buckets.push(b).drop_last() =~= buckets);
}

/// When every bucket respects the per-bucket capacity, the total is bounded
/// by the bucket count times that capacity.
pub proof fn lemma_total_lines_bounded<K, V>(buckets: Seq<Seq<CacheLine<K, V>>>, cap: nat)
    requires
        forall|i: int| 0 <= i < buckets.len() ==> #[trigger] buckets[i].len() <= cap,
    ensures
        total_lines(buckets) <= buckets.len() * cap,
    decreases buckets.len(),
{
    if buckets.len() > 0 {
        lemma_total_lines_bounded(buckets.drop_last(), cap);
        assert((buckets.len() - 1) * cap + cap == buckets.len() * cap) by (nonlinear_arith);
    }
}

/// True iff the two bit vectors hold the same bits.
fn sig_eq(a: &Vec<bool>, b: &Vec<bool>) -> (r: bool)
    ensures
        r <==> a@ == b@,
{
    if a.len() != b.len() {
        proof {
            assert(a@.len() != b@.len());
        }
        return false;
    }
    let n = a.len();
    let mut i: usize = 0;
    while i < n
        invariant
            i <= n,
            n == a@.len(),
            n == b@.len(),
            forall|j: int| 0 <= j < i ==> a@[j] == b@[j],
        decreases n - i,
    {
        if a[i] != b[i] {
            return false;
        }
        i = i + 1;
    }
    proof {
        assert(a@ =~= b@);
    }
    true
}

/// A key-value store that routes each query by its bit signature into one
/// bounded bucket, built on first use with the configured policy `C` and the
/// per-bucket capacity. The dispatcher never evicts buckets themselves.
pub struct LshCache<K: ApproxComparable, V: Clone, C: DefaultApproximateCache<K, V>> {
    buckets: Vec<(Vec<bool>, C)>,
    bucket_capacity: usize,
    num_hash: usize,
    size: usize,
    policy: PhantomData<(K, V)>,
}

/// The LSH dispatcher over FIFO buckets.
pub type LshFifoCache<K, V> = LshCache<K, V, FifoCache<K, V>>;

/// The LSH dispatcher over LRU buckets.
pub type LshLruCache<K, V> = LshCache<K, V, LRUCache<K, V>>;

impl<K: ApproxComparable, V: Clone, C: DefaultApproximateCache<K, V>> LshCache<K, V, C> {
    /// The signatures of the buckets that exist, in order of first use.
    pub closed spec fn sigs(self) -> Seq<Seq<bool>> {
        self.buckets@.map_values(|p: (Vec<bool>, C)| p.0@)
    }

    /// The lines of each bucket, in the same order as `sigs`.
    pub closed spec fn bucket_lines(self) -> Seq<Seq<CacheLine<K, V>>> {
        self.buckets@.map_values(|p: (Vec<bool>, C)| p.1.lines())
    }

    /// The capacity every bucket is built with.
    pub closed spec fn spec_bucket_capacity(self) -> nat {
        self.bucket_capacity as nat
    }

    /// The length every signature must have.
    pub closed spec fn spec_num_hash(self) -> nat {
        self.num_hash as nat
    }

    /// The dispatcher's invariant: distinct signatures of the configured
    /// length, every bucket well-formed at the shared capacity, and the
    /// entry count equal to the sum over the buckets.
    pub closed spec fn wf(self) -> bool {
        &&& self.bucket_capacity >= 1
        &&& self.num_hash >= 1
        &&& self.size == total_lines(self.bucket_lines())
        &&& forall|i: int|
            0 <= i < self.buckets@.len() ==> {
                &&& (#[trigger] self.buckets@[i]).1.wf()
                &&& self.buckets@[i].1.capacity() == self.bucket_capacity
                &&& self.buckets@[i].1.lines().len() <= self.bucket_capacity
                &&& self.buckets@[i].0@.len() == self.num_hash
            }
        &&& forall|i: int, j: int|
            0 <= i < j < self.buckets@.len() ==> (#[trigger] self.buckets@[i].0@)
                != (#[trigger] self.buckets@[j].0@)
    }

    /// An empty dispatcher for signatures of length `num_hash`, whose buckets
    /// will each hold at most `bucket_capacity` lines.
    pub fn new(num_hash: usize, bucket_capacity: usize) -> (r: Self)
        requires
            num_hash >= 1,
            bucket_capacity >= 1,
        ensures
            r.wf(),
            r.sigs() == Seq::<Seq<bool>>::empty(),
            r.bucket_lines() == Seq::<Seq<CacheLine<K, V>>>::empty(),
            r.spec_bucket_capacity() == bucket_capacity,
            r.spec_num_hash() == num_hash,
    {
        let r = LshCache {
            buckets: Vec::new(),
            bucket_capacity,
            num_hash,
            size: 0,
            policy: PhantomData,
        };
        proof {
            assert(r.sigs() =~= Seq::<Seq<bool>>::empty());
            assert(r.bucket_lines() =~= Seq::<Seq<CacheLine<K, V>>>::empty());
        }
        r
    }

    /// Returns the index of the bucket carrying `sig`, if one exists.
    fn bucket_position(&self, sig: &Vec<bool>) -> (r: Option<usize>)
        ensures
            r is Some <==> sig_index(self.sigs(), sig@) is Some,
            r matches Some(i) ==> i < self.buckets@.len() && sig_index(self.sigs(), sig@)
                == Some(i as int),
    {
        let n = self.buckets.len();
        let mut i: usize = 0;
        while i < n
            invariant
                i <= n,
                n == self.buckets@.len(),
                n == self.sigs().len(),
                forall|j: int| 0 <= j < i ==> self.sigs()[j] != sig@,
            decreases n - i,
        {
            if sig_eq(&self.buckets[i].0, sig) {
                proof {
                    assert(self.sigs()[i as int] == sig@);
                    lemma_sig_index_unique(self.sigs(), sig@, i as int);
                }
                return Some(i);
            }
            proof {
                assert(self.sigs()[i as int] == self.buckets@[i as int].0@);
            }
            i = i + 1;
        }
        proof {
            lemma_sig_index(self.sigs(), sig@);
        }
        None
    }

    /// Answers the query from the bucket its signature routes to: a miss when
    /// that bucket does not exist, otherwise whatever the bucket's policy
    /// answers. Only the routed bucket may be touched.
    pub fn find(&mut self, sig: &Vec<bool>, target: &K) -> (r: Option<V>)
        requires
            old(self).wf(),
            sig@.len() == old(self).spec_num_hash(),
        ensures
            final(self).wf(),
            final(self).sigs() == old(self).sigs(),
            final(self).spec_bucket_capacity() == old(self).spec_bucket_capacity(),
            final(self).spec_num_hash() == old(self).spec_num_hash(),
            total_lines(final(self).bucket_lines()) == total_lines(old(self).bucket_lines()),
            sig_index(old(self).sigs(), sig@) is None ==> r is None && *final(self) == *old(self),
            sig_index(old(self).sigs(), sig@) matches Some(bi) ==> {
                &&& (r is Some <==> best_in(old(self).bucket_lines()[bi], *target) is Some)
                &&& (r matches Some(v) ==> cloned::<V>(
                    old(self).bucket_lines()[bi][best_in(
                        old(self).bucket_lines()[bi],
                        *target,
                    )->Some_0].value,
                    v,
                ))
                &&& final(self).bucket_lines()[bi].to_multiset() == old(self).bucket_lines()[bi].to_multiset()
                &&& forall|j: int|
                    0 <= j < old(self).bucket_lines().len() && j != bi ==> final(self).bucket_lines()[j] == old(self).bucket_lines()[j]
            },
    {
        let position = self.bucket_position(sig);
        match position {
            Option::None => None,
            Option::Some(bi) => {
                let pair = self.buckets.remove(bi);
                let psig = pair.0;
                let mut bucket = pair.1;
                let r = bucket.find(target);
                self.buckets.insert(bi, (psig, bucket));
                proof {
                    let old_lines = old(self).buckets@[bi as int].1.lines();
                    let new_lines = final(self).buckets@[bi as int].1.lines();
                    assert(final(self).buckets@ =~= old(self).buckets@.update(
                        bi as int,
                        final(self).buckets@[bi as int],
                    ));
                    assert(final(self).sigs() =~= old(self).sigs());
                    assert(final(self).bucket_lines() =~= old(self).bucket_lines().update(
                        bi as int,
                        new_lines,
                    ));
                    old_lines.to_multiset_ensures();
                    new_lines.to_multiset_ensures();
                    assert(new_lines.len() == old_lines.len());
                    lemma_total_lines_update(old(self).bucket_lines(), bi as int, new_lines);
                    assert(forall|j: int|
                        0 <= j < old(self).bucket_lines().len() && j != bi as int ==> final(self).bucket_lines()[j] == old(self).bucket_lines()[j]);
                }
                r
            },
        }
    }

    /// Stores the line in the bucket the signature routes to, creating that
    /// bucket with the configured policy and capacity on first use; the
    /// bucket's own policy decides the victim when it is full.
    pub fn insert(&mut self, sig: &Vec<bool>, key: K, value: V, tolerance: u32)
        requires
            old(self).wf(),
            sig@.len() == old(self).spec_num_hash(),
            is_valid_tolerance(tolerance),
            total_lines(old(self).bucket_lines()) < usize::MAX,
        ensures
            final(self).wf(),
            final(self).spec_bucket_capacity() == old(self).spec_bucket_capacity(),
            final(self).spec_num_hash() == old(self).spec_num_hash(),
            sig_index(old(self).sigs(), sig@) is None ==> {
                &&& final(self).sigs() == old(self).sigs().push(sig@)
                &&& final(self).bucket_lines() == old(self).bucket_lines().push(
                    seq![CacheLine { key, tol: tolerance, value }],
                )
            },
            sig_index(old(self).sigs(), sig@) matches Some(bi) ==> {
                &&& final(self).sigs() == old(self).sigs()
                &&& final(self).bucket_lines()[bi].to_multiset().contains(
                    CacheLine { key, tol: tolerance, value },
                )
                &&& old(self).bucket_lines()[bi].len() < old(self).spec_bucket_capacity()
                    ==> final(self).bucket_lines()[bi].len() == old(self).bucket_lines()[bi].len()
                    + 1
                &&& old(self).bucket_lines()[bi].len() >= old(self).spec_bucket_capacity()
                    ==> final(self).bucket_lines()[bi].len() == old(self).bucket_lines()[bi].len()
                &&& forall|j: int|
                    0 <= j < old(self).bucket_lines().len() && j != bi ==> final(self).bucket_lines()[j] == old(self).bucket_lines()[j]
            },
            total_lines(old(self).bucket_lines()) < total_lines(final(self).bucket_lines())
                ==> total_lines(final(self).bucket_lines()) == total_lines(
                old(self).bucket_lines(),
            ) + 1,
            total_lines(final(self).bucket_lines()) >= total_lines(old(self).bucket_lines()),
    {
        let ghost line = CacheLine { key, tol: tolerance, value };
        let position = self.bucket_position(sig);
        match position {
            Option::None => {
                let mut bucket = C::from_capacity(self.bucket_capacity);
                bucket.insert(key, value, tolerance);
                proof {
                    bucket.lines().to_multiset_ensures();
                    assert(bucket.lines().len() == 1);
                    assert(bucket.lines().contains(line));
                    assert(bucket.lines() =~= seq![line]);
                }
                let sig_copy = clone_sig(sig);
                self.buckets.push((sig_copy, bucket));
                self.size = self.size + 1;
                proof {
                    assert(final(self).sigs() =~= old(self).sigs().push(sig@));
                    assert(final(self).bucket_lines() =~= old(self).bucket_lines().push(
                        seq![line],
                    ));
                    lemma_total_lines_push(old(self).bucket_lines(), seq![line]);
                    lemma_sig_index(old(self).sigs(), sig@);
                    assert(forall|j: int|
                        0 <= j < old(self).buckets@.len() ==> old(self).sigs()[j] == (
                        #[trigger] old(self).buckets@[j]).0@);
                    assert(forall|j: int|
                        0 <= j < old(self).buckets@.len() ==> (#[trigger] old(
                            self,
                        ).buckets@[j]).0@ != sig@);
                    assert(forall|j: int|
                        0 <= j < old(self).buckets@.len() ==> final(self).buckets@[j] == old(
                            self,
                        ).buckets@[j]);
                }
            },
            Option::Some(bi) => {
                let pair = self.buckets.remove(bi);
                let psig = pair.0;
                let mut bucket = pair.1;
                let grew = bucket.len() < self.bucket_capacity;
                bucket.insert(key, value, tolerance);
                self.buckets.insert(bi, (psig, bucket));
                if grew {
                    self.size = self.size + 1;
                }
                proof {
                    let new_lines = final(self).buckets@[bi as int].1.lines();
                    assert(final(self).buckets@ =~= old(self).buckets@.update(
                        bi as int,
                        final(self).buckets@[bi as int],
                    ));
                    assert(final(self).sigs() =~= old(self).sigs());
                    assert(final(self).bucket_lines() =~= old(self).bucket_lines().update(
                        bi as int,
                        new_lines,
                    ));
                    lemma_total_lines_update(old(self).bucket_lines(), bi as int, new_lines);
                    lemma_sig_index(old(self).sigs(), sig@);
                }
            },
        }
    }

    /// The number of lines held across all buckets.
    pub fn len(&self) -> (n: usize)
        requires
            self.wf(),
        ensures
            n == total_lines(self.bucket_lines()),
    {
        self.size
    }

    /// True iff no bucket holds a line.
    pub fn is_empty(&self) -> (r: bool)
        requires
            self.wf(),
        ensures
            r <==> total_lines(self.bucket_lines()) == 0,
    {
        self.size == 0
    }

    /// The total never exceeds the bucket count times the shared capacity.
    pub proof fn lemma_len_bounded(self)
        requires
            self.wf(),
        ensures
            total_lines(self.bucket_lines()) <= self.sigs().len() * self.spec_bucket_capacity(),
    {
        assert forall|i: int| 0 <= i < self.bucket_lines().len() implies #[trigger] self
            .bucket_lines()[i].len() <= self.spec_bucket_capacity() by {
            assert(self.bucket_lines()[i] == self.buckets@[i].1.lines());
        }
        lemma_total_lines_bounded(self.bucket_lines(), self.spec_bucket_capacity());
    }
}

/// Copies a signature bit for bit.
fn clone_sig(sig: &Vec<bool>) -> (r: Vec<bool>)
    ensures
        r@ == sig@,
{
    let n = sig.len();
    let mut out: Vec<bool> = Vec::new();
    let mut i: usize = 0;
    while i < n
        invariant
            i <= n,
            n == sig@.len(),
            out@ == sig@.take(i as int),
        decreases n - i,
    {
        out.push(sig[i]);
        proof {
            assert(sig@.take(i + 1 as int) =~= sig@.take(i as int).push(sig@[i as int]));
        }
        i = i + 1;
    }
    proof {
        assert(sig@.take(n as int) =~= sig@);
    }
    out
}

} // verus!
