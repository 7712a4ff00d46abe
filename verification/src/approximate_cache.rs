//! The operation surface shared by the bounded caches.
//!
//! A cache stores lines — key, tolerance, value — and answers a query with
//! the value of the nearest matching line. The scan semantics is fixed here
//! once, as `best_in`: walk the lines in order, keep the candidate with the
//! strictly smallest fuzziness, let the earlier of two ties win. A policy
//! (FIFO, LRU) chooses what the order means and what happens on insert and on
//! a hit; both implement this trait against the same scan.

use vstd::pervasive::cloned;
use vstd::prelude::*;

use crate::comp::ApproxComparable;
use crate::float_bits::{float_lt, is_nan_bits, is_valid_tolerance, lt_bits};

verus! {

/// One stored entry: a key, the tolerance it was inserted with, and a value.
pub struct CacheLine<K, V> {
    pub key: K,
    pub tol: u32,
    pub value: V,
}

/// True iff the stored line matches the queried key within the line's own
/// tolerance. A NaN fuzziness matches nothing.
pub open spec fn line_matches<K: ApproxComparable, V>(
    line: CacheLine<K, V>,
    target: K,
) -> bool {
    float_lt(line.key.spec_fuzziness(target), line.tol)
}

/// The fuzziness from the queried key to a stored line — the quantity the
/// nearest-match scan minimizes.
pub open spec fn line_fuzz<K: ApproxComparable, V>(target: K, line: CacheLine<K, V>) -> u32 {
    target.spec_fuzziness(line.key)
}

/// The index the nearest-match scan selects among the lines of `s`: the scan
/// walks the sequence front to back, keeps the first matching line, and
/// replaces it only when a later matching line is strictly closer. `None`
/// when no line matches.
pub open spec fn best_in<K: ApproxComparable, V>(
    s: Seq<CacheLine<K, V>>,
    target: K,
) -> Option<int>
    decreases s.len(),
{
    if s.len() == 0 {
        None
    } else {
        let i = s.len() - 1;
        let prior = best_in(s.drop_last(), target);
        if !line_matches(s[i], target) {
            prior
        } else {
            match prior {
                Option::None => Some(i),
                Option::Some(b) => if float_lt(line_fuzz(target, s[i]), line_fuzz(target, s[b])) {
                    Some(i)
                } else {
                    Some(b)
                },
            }
        }
    }
}

/// What `best_in` selects, on any lines whatever: a matching line exists iff
/// one is selected, the selected line matches, and no matching line is
/// strictly closer to the query.
pub proof fn lemma_best_in_minimal<K: ApproxComparable, V>(s: Seq<CacheLine<K, V>>, target: K)
    ensures
        best_in(s, target) is Some <==> exists|j: int|
            0 <= j < s.len() && #[trigger] line_matches(s[j], target),
        best_in(s, target) matches Some(b) ==> {
            &&& 0 <= b < s.len()
            &&& line_matches(s[b], target)
            &&& forall|j: int|
                0 <= j < s.len() && #[trigger] line_matches(s[j], target) ==> !float_lt(
                    line_fuzz(target, s[j]),
                    line_fuzz(target, s[b]),
                )
        },
    decreases s.len(),
{
    if s.len() > 0 {
        lemma_best_in_minimal(s.drop_last(), target);
        assert(forall|j: int| 0 <= j < s.len() - 1 ==> s.drop_last()[j] == s[j]);
        if best_in(s, target) is Some {
            let b = best_in(s, target)->Some_0;
            assert forall|j: int|
                0 <= j < s.len() && #[trigger] line_matches(s[j], target) implies !float_lt(
                line_fuzz(target, s[j]),
                line_fuzz(target, s[b]),
            ) by {
                if j < s.len() - 1 && best_in(s.drop_last(), target) is Some {
                    let p = best_in(s.drop_last(), target)->Some_0;
                    if float_lt(line_fuzz(target, s[j]), line_fuzz(target, s[b])) {
                        crate::float_bits::lemma_float_lt_transitive(
                            line_fuzz(target, s[j]),
                            line_fuzz(target, s[b]),
                            line_fuzz(target, s[p]),
                        );
                    }
                }
            }
        }
    }
}

/// Among lines whose fuzziness to the query is comparable (no NaN), the
/// selected line is strictly closer than every matching line before it: of
/// two equally close candidates, the earlier one wins.
pub proof fn lemma_best_in_first_of_ties<K: ApproxComparable, V>(
    s: Seq<CacheLine<K, V>>,
    target: K,
)
    requires
        forall|j: int|
            0 <= j < s.len() && #[trigger] line_matches(s[j], target) ==> !is_nan_bits(
                line_fuzz(target, s[j]),
            ),
    ensures
        best_in(s, target) matches Some(b) ==> forall|j: int|
            0 <= j < b && #[trigger] line_matches(s[j], target) ==> float_lt(
                line_fuzz(target, s[b]),
                line_fuzz(target, s[j]),
            ),
    decreases s.len(),
{
    if s.len() > 0 {
        assert(forall|j: int| 0 <= j < s.len() - 1 ==> s.drop_last()[j] == s[j]);
        lemma_best_in_first_of_ties(s.drop_last(), target);
        lemma_best_in_minimal(s.drop_last(), target);
        if best_in(s, target) is Some {
            let b = best_in(s, target)->Some_0;
            assert forall|j: int|
                0 <= j < b && #[trigger] line_matches(s[j], target) implies float_lt(
                line_fuzz(target, s[b]),
                line_fuzz(target, s[j]),
            ) by {
                if b == s.len() - 1 {
                    let p = best_in(s.drop_last(), target)->Some_0;
                    crate::float_bits::lemma_float_trichotomy(
                        line_fuzz(target, s[j]),
                        line_fuzz(target, s[p]),
                    );
                    if float_lt(line_fuzz(target, s[p]), line_fuzz(target, s[j])) {
                        crate::float_bits::lemma_float_lt_transitive(
                            line_fuzz(target, s[b]),
                            line_fuzz(target, s[p]),
                            line_fuzz(target, s[j]),
                        );
                    }
                }
            }
        }
    }
}

/// A matching head that no line strictly beats wins the scan: the head is the
/// first candidate, and the scan displaces its candidate only for a strictly
/// closer line.
proof fn lemma_best_in_head_wins<K: ApproxComparable, V>(t: Seq<CacheLine<K, V>>, target: K)
    requires
        t.len() > 0,
        line_matches(t[0], target),
        forall|j: int|
            0 <= j < t.len() && #[trigger] line_matches(t[j], target) ==> !float_lt(
                line_fuzz(target, t[j]),
                line_fuzz(target, t[0]),
            ),
    ensures
        best_in(t, target) == Some(0int),
    decreases t.len(),
{
    if t.len() == 1 {
        lemma_best_in_minimal(t, target);
        assert(best_in(t, target) is Some);
    } else {
        assert(forall|j: int| 0 <= j < t.len() - 1 ==> t.drop_last()[j] == t[j]);
        lemma_best_in_head_wins(t.drop_last(), target);
    }
}

/// A line whose key has zero fuzziness to itself, appended behind lines that
/// are all strictly farther from its key, wins the next scan for that key:
/// inserting into a FIFO cache and looking the key up, with no insert in
/// between, returns the inserted value. An older line at distance zero would
/// win instead — the FIFO tie goes to the older line — so such lines are
/// excluded here.
pub proof fn lemma_fifo_insert_then_find<K: ApproxComparable, V>(
    s: Seq<CacheLine<K, V>>,
    key: K,
    value: V,
    tolerance: u32,
)
    requires
        is_valid_tolerance(tolerance),
        key.spec_fuzziness(key) == crate::float_bits::ZERO_BITS,
        forall|j: int|
            0 <= j < s.len() ==> float_lt(
                crate::float_bits::ZERO_BITS,
                #[trigger] line_fuzz(key, s[j]),
            ),
    ensures
        best_in(s.push(CacheLine { key, tol: tolerance, value }), key) == Some(s.len() as int),
{
    let line = CacheLine { key, tol: tolerance, value };
    let t = s.push(line);
    lemma_best_in_minimal(t, key);
    assert(line_matches(t[s.len() as int], key));
    let b = best_in(t, key)->Some_0;
    if b < s.len() {
        assert(!float_lt(line_fuzz(key, t[s.len() as int]), line_fuzz(key, t[b])));
        assert(float_lt(crate::float_bits::ZERO_BITS, line_fuzz(key, s[b])));
        assert(false);
    }
}

/// The same, for the LRU cache: the new line stands at the head, and a tie at
/// distance zero goes to the head, so it is enough that no stored line is
/// strictly closer than zero — fuzziness to the stored keys must be
/// non-negative.
pub proof fn lemma_lru_insert_then_find<K: ApproxComparable, V>(
    s: Seq<CacheLine<K, V>>,
    key: K,
    value: V,
    tolerance: u32,
)
    requires
        is_valid_tolerance(tolerance),
        key.spec_fuzziness(key) == crate::float_bits::ZERO_BITS,
        forall|j: int|
            0 <= j < s.len() ==> !float_lt(
                #[trigger] line_fuzz(key, s[j]),
                crate::float_bits::ZERO_BITS,
            ),
    ensures
        best_in(seq![CacheLine { key, tol: tolerance, value }] + s, key) == Some(0int),
{
    let line = CacheLine { key, tol: tolerance, value };
    let t = seq![line] + s;
    assert(forall|j: int| 1 <= j < t.len() ==> t[j] == s[j - 1]);
    assert(line_matches(t[0], key));
    lemma_best_in_head_wins(t, key);
}

/// Looking a key up twice in the LRU cache returns the same line both times:
/// the hit promotes the winning line to the head, and at the head it still
/// wins — it was minimal, and the head wins ties.
pub proof fn lemma_lru_find_again<K: ApproxComparable, V>(s: Seq<CacheLine<K, V>>, target: K)
    requires
        best_in(s, target) is Some,
    ensures
        ({
            let b = best_in(s, target)->Some_0;
            let t = s.remove(b).insert(0, s[b]);
            &&& t[0] == s[b]
            &&& best_in(t, target) == Some(0int)
        }),
{
    let b = best_in(s, target)->Some_0;
    let t = s.remove(b).insert(0, s[b]);
    lemma_best_in_minimal(s, target);
    assert(t =~= seq![s[b]] + s.remove(b));
    assert forall|q: int| 1 <= q < t.len() implies t[q] == s[(if q - 1 < b {
        q - 1
    } else {
        q
    })] by {
        assert(s.remove(b)[q - 1] == s[(if q - 1 < b {
            q - 1
        } else {
            q
        })]);
    }
    assert(line_matches(t[0], target));
    assert forall|j: int|
        0 <= j < t.len() && #[trigger] line_matches(t[j], target) implies !float_lt(
        line_fuzz(target, t[j]),
        line_fuzz(target, t[0]),
    ) by {
        if j > 0 {
            assert(t[j] == s[(if j - 1 < b {
                j - 1
            } else {
                j
            })]);
        }
    }
    lemma_best_in_head_wins(t, target);
}

/// Scans the lines front to back and returns the index `best_in` selects:
/// the first matching line, displaced only by a strictly closer later one.
pub(crate) fn scan_best<K: ApproxComparable, V>(items: &Vec<CacheLine<K, V>>, target: &K) -> (r:
    Option<usize>)
    ensures
        r is Some <==> best_in(items@, *target) is Some,
        r matches Some(b) ==> b < items@.len() && best_in(items@, *target) == Some(b as int),
{
    let mut best: Option<usize> = None;
    let mut best_fuzz: u32 = 0;
    let n = items.len();
    let mut i: usize = 0;
    while i < n
        invariant
            i <= n,
            n == items@.len(),
            best is None ==> best_in(items@.take(i as int), *target) is None,
            best matches Some(b) ==> {
                &&& b < i
                &&& best_in(items@.take(i as int), *target) == Some(b as int)
                &&& best_fuzz == line_fuzz(*target, items@[b as int])
            },
        decreases n - i,
    {
        let line = &items[i];
        let is_match = line.key.roughly_matches(target, line.tol);
        if is_match {
            let f = target.fuzziness(&line.key);
            let replace = match best {
                Option::None => true,
                Option::Some(_) => lt_bits(f, best_fuzz),
            };
            if replace {
                best = Some(i);
                best_fuzz = f;
            }
        }
        proof {
            assert(items@.take(i + 1 as int).drop_last() =~= items@.take(i as int));
            assert(items@.take(i + 1 as int).last() == items@[i as int]);
        }
        i = i + 1;
    }
    proof {
        assert(items@.take(n as int) =~= items@);
    }
    best
}

/// What a batched lookup answers: `states` is the chain of line states the
/// cache passes through, one per query, each reached from the one before by a
/// lookup — the lines preserved up to order — and every answer obeys the
/// contract of `find` on the state its own lookup saw: a hit iff that state
/// holds a matching line, with the returned value cloned from the line the
/// scan selects there.
pub open spec fn batch_answers<K: ApproxComparable, V: Clone>(
    targets: Seq<K>,
    states: Seq<Seq<CacheLine<K, V>>>,
    answers: Seq<Option<V>>,
) -> bool {
    &&& states.len() == targets.len() + 1
    &&& answers.len() == targets.len()
    &&& forall|i: int|
        0 <= i < targets.len() ==> (#[trigger] states[i + 1]).to_multiset()
            == states[i].to_multiset()
    &&& forall|i: int|
        0 <= i < targets.len() ==> ((#[trigger] answers[i]) is Some <==> best_in(
            states[i],
            targets[i],
        ) is Some)
    &&& forall|i: int|
        0 <= i < targets.len() ==> ((#[trigger] answers[i]) matches Some(v) ==> cloned::<V>(
            states[i][best_in(states[i], targets[i])->Some_0].value,
            v,
        ))
}

/// The uniform operation surface of a bounded approximate cache.
pub trait ApproximateCache<K: ApproxComparable, V: Clone>: Sized {
    /// The stored lines, in the order the nearest-match scan walks them.
    spec fn lines(self) -> Seq<CacheLine<K, V>>;

    /// The configured maximum number of lines.
    spec fn capacity(self) -> nat;

    /// The cache's internal invariant.
    spec fn wf(self) -> bool;

    /// A well-formed cache never holds more lines than its capacity, and
    /// every stored line carries a strictly positive tolerance.
    proof fn lemma_wf_bounds(&self)
        requires
            self.wf(),
        ensures
            self.lines().len() <= self.capacity(),
            self.capacity() >= 1,
            forall|i: int|
                0 <= i < self.lines().len() ==> is_valid_tolerance(
                    (#[trigger] self.lines()[i]).tol,
                ),
    ;

    /// Returns a copy of the value of the nearest matching line, or `None`
    /// when no line matches. The stored lines are preserved up to order.
    fn find(&mut self, target: &K) -> (r: Option<V>)
        requires
            old(self).wf(),
        ensures
            final(self).wf(),
            final(self).capacity() == old(self).capacity(),
            final(self).lines().to_multiset() == old(self).lines().to_multiset(),
            r is Some <==> best_in(old(self).lines(), *target) is Some,
            (r matches Some(v) ==> cloned::<V>(
                old(self).lines()[best_in(old(self).lines(), *target)->Some_0].value,
                v,
            )),
    ;

    /// Stores a line; when the cache is full, the policy's victim leaves so
    /// the count stays at capacity, otherwise the count grows by one.
    fn insert(&mut self, key: K, value: V, tolerance: u32)
        requires
            old(self).wf(),
            is_valid_tolerance(tolerance),
        ensures
            final(self).wf(),
            final(self).capacity() == old(self).capacity(),
            old(self).lines().len() < old(self).capacity() ==> final(self).lines().len() == old(
                self,
            ).lines().len() + 1,
            old(self).lines().len() >= old(self).capacity() ==> final(self).lines().len() == old(
                self,
            ).lines().len(),
            final(self).lines().to_multiset().contains(
                CacheLine { key, tol: tolerance, value },
            ),
    ;

    /// The number of stored lines.
    fn len(&self) -> (n: usize)
        requires
            self.wf(),
        ensures
            n == self.lines().len(),
    ;

    /// True iff no line is stored.
    fn is_empty(&self) -> (r: bool)
        requires
            self.wf(),
        ensures
            r <==> self.lines().len() == 0,
    {
        self.len() == 0
    }

    /// Looks up each target in turn — a convenience for embedders that pay a
    /// per-call transition cost. Each answer obeys the contract of `find` on
    /// the state the lookups before it left behind (`batch_answers`).
    fn batch_find(&mut self, targets: &Vec<K>) -> (r: Vec<Option<V>>)
        requires
            old(self).wf(),
        ensures
            final(self).wf(),
            final(self).capacity() == old(self).capacity(),
            final(self).lines().to_multiset() == old(self).lines().to_multiset(),
            r@.len() == targets@.len(),
            exists|states: Seq<Seq<CacheLine<K, V>>>|
                {
                    &&& #[trigger] batch_answers(targets@, states, r@)
                    &&& states[0] == old(self).lines()
                    &&& states[targets@.len() as int] == final(self).lines()
                },
    {
        let mut out: Vec<Option<V>> = Vec::new();
        let ghost mut states: Seq<Seq<CacheLine<K, V>>> = seq![old(self).lines()];
        let n = targets.len();
        let mut i: usize = 0;
        while i < n
            invariant
                i <= n,
                n == targets@.len(),
                out@.len() == i,
                self.wf(),
                self.capacity() == old(self).capacity(),
                self.lines().to_multiset() == old(self).lines().to_multiset(),
                states.len() == i + 1,
                states[0] == old(self).lines(),
                states[i as int] == self.lines(),
                forall|j: int|
                    0 <= j < i ==> (#[trigger] states[j + 1]).to_multiset()
                        == states[j].to_multiset(),
                forall|j: int|
                    0 <= j < i ==> ((#[trigger] out@[j]) is Some <==> best_in(
                        states[j],
                        targets@[j],
                    ) is Some),
                forall|j: int|
                    0 <= j < i ==> ((#[trigger] out@[j]) matches Some(v) ==> cloned::<V>(
                        states[j][best_in(states[j], targets@[j])->Some_0].value,
                        v,
                    )),
            decreases n - i,
        {
            let answer = self.find(&targets[i]);
            proof {
                states = states.push(self.lines());
            }
            out.push(answer);
            i = i + 1;
        }
        proof {
            assert(batch_answers(targets@, states, out@));
        }
        out
    }
}

/// A bounded approximate cache that can be built from a capacity alone — the
/// capability the LSH dispatcher needs to open a bucket on first use.
pub trait DefaultApproximateCache<K: ApproxComparable, V: Clone>: ApproximateCache<
    K,
    V,
> {
    /// Builds an empty cache with the given capacity.
    fn from_capacity(cap: usize) -> (r: Self)
        requires
            cap >= 1,
        ensures
            r.wf(),
            r.lines() == Seq::<CacheLine<K, V>>::empty(),
            r.capacity() == cap,
    ;
}

} // verus!
