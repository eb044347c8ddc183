//! A counter of keys: how many times each key was counted, and how many counts there
//! are in all. Only keys with a positive count are kept.
use vstd::prelude::*;

use crate::sums::{lemma_sum_ext, sum_to};

verus! {

/// Keys that a counter can hold: copyable values that can be compared.
pub trait CounterKey: Copy + Sized {
    /// `true` exactly when the two keys are equal.
    fn same(&self, other: &Self) -> (r: bool)
        ensures
            r == (*self == *other),
    ;
}

impl CounterKey for usize {
    fn same(&self, other: &Self) -> (r: bool) {
        *self == *other
    }
}

/// Sum of the counts of a list of (key, count) entries.
pub open spec fn total_of<T>(s: Seq<(T, usize)>) -> int
    decreases s.len(),
{
    if s.len() == 0 {
        0
    } else {
        total_of(s.drop_last()) + s.last().1
    }
}

/// Changing one count changes the total by the difference.
proof fn lemma_total_update<T>(s: Seq<(T, usize)>, i: int, e: (T, usize))
    requires
        0 <= i < s.len(),
    ensures
        total_of(s.update(i, e)) == total_of(s) - s[i].1 + e.1,
    decreases s.len(),
{
    let u = s.update(i, e);
    if i == s.len() - 1 {
        assert(u.drop_last() =~= s.drop_last());
    } else {
        assert(u.drop_last() =~= s.drop_last().update(i, e));
        lemma_total_update(s.drop_last(), i, e);
    }
}

/// Removing an entry takes its count off the total.
proof fn lemma_total_remove<T>(s: Seq<(T, usize)>, i: int)
    requires
        0 <= i < s.len(),
    ensures
        total_of(s.remove(i)) == total_of(s) - s[i].1,
    decreases s.len(),
{
    let r = s.remove(i);
    if i == s.len() - 1 {
        assert(r =~= s.drop_last());
    } else {
        assert(r.drop_last() =~= s.drop_last().remove(i));
        assert(r.last() == s.last());
        lemma_total_remove(s.drop_last(), i);
    }
}

/// Counts are never negative, so neither is their total, and each is at most it.
proof fn lemma_total_bounds<T>(s: Seq<(T, usize)>, i: int)
    requires
        0 <= i < s.len(),
    ensures
        s[i].1 <= total_of(s),
    decreases s.len(),
{
    lemma_total_nonneg(s.drop_last());
    if i < s.len() - 1 {
        lemma_total_bounds(s.drop_last(), i);
    }
}

/// The total of the first `n` entries is the sum of their counts.
proof fn lemma_total_of_sum<T>(s: Seq<(T, usize)>, n: int)
    requires
        0 <= n <= s.len(),
    ensures
        total_of(s.subrange(0, n)) == sum_to(n, |i: int| s[i].1 as int),
    decreases n,
{
    if n > 0 {
        lemma_total_of_sum(s, n - 1);
        assert(s.subrange(0, n).drop_last() =~= s.subrange(0, n - 1));
    }
}

/// A total of counts is not negative.
proof fn lemma_total_nonneg<T>(s: Seq<(T, usize)>)
    ensures
        0 <= total_of(s),
    decreases s.len(),
{
    if s.len() > 0 {
        lemma_total_nonneg(s.drop_last());
    }
}

/// A counter: for each key with a positive count, the key and its count, and the
/// total of the counts.
#[derive(Clone, Debug)]
pub struct RealCounter<T> {
    count: Vec<(T, usize)>,
    total_count: usize,
}

impl<T: CounterKey> RealCounter<T> {
    /// The keys with a positive count, in the order they were first counted.
    pub closed spec fn key_seq(self) -> Seq<T> {
        self.count@.map_values(|e: (T, usize)| e.0)
    }

    /// How many times `k` was counted (0 for keys not held).
    pub closed spec fn count(self, k: T) -> nat {
        if exists|i: int| 0 <= i < self.count@.len() && self.count@[i].0 == k {
            self.count@[choose|i: int| 0 <= i < self.count@.len() && self.count@[i].0 == k].1 as nat
        } else {
            0
        }
    }

    /// The total of the counts.
    pub closed spec fn total(self) -> nat {
        self.total_count as nat
    }

    /// No key is held twice, every held count is positive, and the total is their sum.
    pub closed spec fn wf(self) -> bool {
        &&& forall|i: int, j: int|
            0 <= i < j < self.count@.len() ==> self.count@[i].0 != self.count@[j].0
        &&& forall|i: int| 0 <= i < self.count@.len() ==> (#[trigger] self.count@[i]).1 > 0
        &&& self.total_count == total_of(self.count@)
    }

    /// What well-formedness gives to other modules: the held keys are distinct and are
    /// exactly the keys with a positive count, and each count is at most the total.
    pub proof fn lemma_wf(self)
        requires
            self.wf(),
        ensures
            self.key_seq().no_duplicates(),
            forall|k: T| self.key_seq().contains(k) <==> self.count(k) > 0,
            forall|k: T| #[trigger] self.count(k) <= self.total(),
            self.key_seq().len() == 0 ==> self.total() == 0,
            self.total() <= usize::MAX,
    {
        assert forall|k: T| self.key_seq().contains(k) <==> self.count(k) > 0 by {
            if self.key_seq().contains(k) {
                let i = choose|i: int| 0 <= i < self.key_seq().len() && self.key_seq()[i] == k;
                assert(self.count@[i].0 == k);
            }
            if self.count(k) > 0 {
                let i = choose|i: int| 0 <= i < self.count@.len() && self.count@[i].0 == k;
                assert(self.key_seq()[i] == k);
            }
        }
        assert forall|k: T| #[trigger] self.count(k) <= self.total() by {
            if exists|i: int| 0 <= i < self.count@.len() && self.count@[i].0 == k {
                let i = choose|i: int| 0 <= i < self.count@.len() && self.count@[i].0 == k;
                lemma_total_bounds(self.count@, i);
            }
        }
        if self.key_seq().len() == 0 {
            assert(self.count@ =~= Seq::empty());
        }
    }

    /// Every held key has a count of at least 1, so the total is 0 exactly when no key
    /// is held.
    pub proof fn lemma_held_counts_positive(self)
        requires
            self.wf(),
        ensures
            forall|i: int| 0 <= i < self.key_seq().len() ==> #[trigger] self.count(self.key_seq()[i]) >= 1,
            self.key_seq().len() == 0 <==> self.total() == 0,
    {
        self.lemma_wf();
        assert forall|i: int| 0 <= i < self.key_seq().len() implies #[trigger] self.count(self.key_seq()[i])
            >= 1 by {
            assert(self.key_seq().contains(self.key_seq()[i]));
        }
        if self.key_seq().len() > 0 {
            assert(self.key_seq().contains(self.key_seq()[0]));
            assert(self.count(self.key_seq()[0]) <= self.total());
        }
    }

    /// The total is the sum of the counts of the held keys.
    pub proof fn lemma_total_is_sum(self)
        requires
            self.wf(),
        ensures
            sum_to(self.key_seq().len() as int, |i: int| self.count(self.key_seq()[i]) as int) == self.total(),
    {
        let s = self.count@;
        let f = |i: int| self.count(self.key_seq()[i]) as int;
        let g = |i: int| s[i].1 as int;
        assert forall|i: int| 0 <= i < s.len() implies #[trigger] f(i) == g(i) by {
            self.lemma_count_at(i);
        }
        lemma_sum_ext(s.len() as int, f, g);
        lemma_total_of_sum(s, s.len() as int);
        assert(s.subrange(0, s.len() as int) =~= s);
    }

    /// The count of a held key is the count in its entry.
    proof fn lemma_count_at(self, i: int)
        requires
            forall|a: int, b: int|
                0 <= a < b < self.count@.len() ==> self.count@[a].0 != self.count@[b].0,
            0 <= i < self.count@.len(),
        ensures
            self.count(self.count@[i].0) == self.count@[i].1,
    {
        let k = self.count@[i].0;
        let c = choose|c: int| 0 <= c < self.count@.len() && self.count@[c].0 == k;
        if c != i {
            if c < i {
                assert(self.count@[c].0 != self.count@[i].0);
            } else {
                assert(self.count@[i].0 != self.count@[c].0);
            }
        }
    }

    /// Counting `k` once more and then once less gives back every count and the total:
    /// `mid` is `before` after `increment(k)`, and `after` is `mid` after
    /// `decrement(&k)`, as their contracts describe them.
    pub proof fn lemma_increment_then_decrement(before: Self, mid: Self, after: Self, k: T)
        requires
            before.wf(),
            after.wf(),
            mid.count(k) == before.count(k) + 1,
            forall|j: T| j != k ==> mid.count(j) == before.count(j),
            mid.total() == before.total() + 1,
            after.count(k) == mid.count(k) - 1,
            forall|j: T| j != k ==> after.count(j) == mid.count(j),
            after.total() == mid.total() - 1,
        ensures
            forall|j: T| after.count(j) == before.count(j),
            after.total() == before.total(),
            after.key_seq().len() == before.key_seq().len(),
    {
        Self::lemma_same_counts_same_keys(before, after);
    }

    /// Two counters with the same counts hold the same number of keys.
    pub proof fn lemma_same_counts_same_keys(a: Self, b: Self)
        requires
            a.wf(),
            b.wf(),
            forall|j: T| a.count(j) == b.count(j),
        ensures
            a.key_seq().len() == b.key_seq().len(),
    {
        a.lemma_wf();
        b.lemma_wf();
        assert(a.key_seq().to_set() =~= b.key_seq().to_set()) by {
            assert forall|j: T| a.key_seq().to_set().contains(j) <==> b.key_seq().to_set().contains(j) by {
                assert(a.key_seq().contains(j) <==> a.count(j) > 0);
                assert(b.key_seq().contains(j) <==> b.count(j) > 0);
            }
        }
        a.key_seq().unique_seq_to_set();
        b.key_seq().unique_seq_to_set();
    }

    /// The position of the entry of `k`, when `k` is held.
    fn find(&self, k: &T) -> (r: Option<usize>)
        requires
            self.wf(),
        ensures
            r is None ==> forall|i: int| 0 <= i < self.count@.len() ==> self.count@[i].0 != *k,
            r matches Some(i) ==> i < self.count@.len() && self.count@[i as int].0 == *k,
    {
        let mut i: usize = 0;
        while i < self.count.len()
            invariant
                i <= self.count@.len(),
                forall|j: int| 0 <= j < i ==> self.count@[j].0 != *k,
            decreases self.count@.len() - i,
        {
            if self.count[i].0.same(k) {
                return Some(i);
            }
            i = i + 1;
        }
        None
    }

    /// An empty counter.
    pub fn new() -> (r: RealCounter<T>)
        ensures
            r.wf(),
            forall|k: T| r.count(k) == 0,
            r.total() == 0,
            r.key_seq().len() == 0,
    {
        RealCounter { count: Vec::new(), total_count: 0 }
    }

    /// Counts `k` once more and returns its new count.
    #[verifier::spinoff_prover]
    #[verifier::rlimit(80)]
    pub fn increment(&mut self, k: T) -> (r: usize)
        requires
            old(self).wf(),
            old(self).total() < usize::MAX,
        ensures
            final(self).wf(),
            final(self).count(k) == old(self).count(k) + 1,
            forall|j: T| j != k ==> final(self).count(j) == old(self).count(j),
            final(self).total() == old(self).total() + 1,
            r == final(self).count(k),
    {
        proof {
            self.lemma_wf();
        }
        let ghost old_count = self.count@;
        match self.find(&k) {
            Some(i) => {
                proof {
                    lemma_total_bounds(old_count, i as int);
                    old(self).lemma_count_at(i as int);
                }
                let v = self.count[i].1 + 1;
                self.count.set(i, (k, v));
                proof {
                    lemma_total_update(old_count, i as int, (k, v));
                    assert forall|j: T| j != k implies self.count(j) == old(self).count(j) by {
                        if exists|x: int| 0 <= x < old_count.len() && old_count[x].0 == j {
                            let x = choose|x: int| 0 <= x < old_count.len() && old_count[x].0 == j;
                            assert(self.count@[x].0 == j);
                        }
                        if exists|x: int| 0 <= x < self.count@.len() && self.count@[x].0 == j {
                            let x = choose|x: int| 0 <= x < self.count@.len() && self.count@[x].0 == j;
                            assert(old_count[x].0 == j);
                        }
                    }
                    assert(self.count@[i as int].0 == k);
                }
                proof {
                    self.lemma_count_at(i as int);
                    assert(old(self).count(k) == old_count[i as int].1);
                    assert(self.count(k) == v);
                }
                self.total_count = self.total_count + 1;
                v
            },
            None => {
                self.count.push((k, 1));
                proof {
                    assert(self.count@.drop_last() =~= old_count);
                    assert(self.count@[old_count.len() as int].0 == k);
                    self.lemma_count_at(old_count.len() as int);
                    assert(!exists|x: int| 0 <= x < old_count.len() && old_count[x].0 == k);
                    assert(old(self).count(k) == 0);
                    assert(self.count(k) == 1);
                    assert forall|j: T| j != k implies self.count(j) == old(self).count(j) by {
                        if exists|x: int| 0 <= x < old_count.len() && old_count[x].0 == j {
                            let x = choose|x: int| 0 <= x < old_count.len() && old_count[x].0 == j;
                            assert(self.count@[x].0 == j);
                        }
                        if exists|x: int| 0 <= x < self.count@.len() && self.count@[x].0 == j {
                            let x = choose|x: int| 0 <= x < self.count@.len() && self.count@[x].0 == j;
                            assert(old_count[x].0 == j);
                        }
                    }
                }
                self.total_count = self.total_count + 1;
                1
            },
        }
    }

    /// Counts `k` once less and returns its new count; a key whose count reaches 0
    /// is no longer held. Fails, changing nothing, when `k` is not held.
    #[verifier::spinoff_prover]
    #[verifier::rlimit(80)]
    pub fn decrement(&mut self, k: &T) -> (r: Option<usize>)
        requires
            old(self).wf(),
        ensures
            final(self).wf(),
            old(self).count(*k) == 0 ==> r is None && *final(self) == *old(self),
            old(self).count(*k) > 0 ==> {
                &&& r == Some((old(self).count(*k) - 1) as usize)
                &&& final(self).count(*k) == old(self).count(*k) - 1
                &&& forall|j: T| j != *k ==> final(self).count(j) == old(self).count(j)
                &&& final(self).total() == old(self).total() - 1
                &&& final(self).key_seq().len() == old(self).key_seq().len() - (if old(self).count(*k) == 1 {
                    1int
                } else {
                    0int
                })
            },
    {
        proof {
            self.lemma_wf();
        }
        let ghost old_count = self.count@;
        match self.find(k) {
            None => None,
            Some(i) => {
                let v = self.count[i].1 - 1;
                proof {
                    lemma_total_bounds(old_count, i as int);
                    old(self).lemma_count_at(i as int);
                }
                if v == 0 {
                    self.count.remove(i);
                    proof {
                        assert(self.key_seq().len() == self.count@.len());
                        assert(old(self).key_seq().len() == old_count.len());
                        assert(old(self).count(*k) == 1);
                        lemma_total_remove(old_count, i as int);
                        assert forall|j: T| j != *k implies self.count(j) == old(self).count(j) by {
                            if exists|x: int| 0 <= x < old_count.len() && old_count[x].0 == j {
                                let x = choose|x: int| 0 <= x < old_count.len() && old_count[x].0 == j;
                                if x < i {
                                    assert(self.count@[x].0 == j);
                                } else {
                                    assert(self.count@[x - 1].0 == j);
                                }
                            }
                            if exists|x: int| 0 <= x < self.count@.len() && self.count@[x].0 == j {
                                let x = choose|x: int| 0 <= x < self.count@.len() && self.count@[x].0 == j;
                                if x < i {
                                    assert(old_count[x].0 == j);
                                } else {
                                    assert(old_count[x + 1].0 == j);
                                }
                            }
                        }
                        if exists|x: int| 0 <= x < self.count@.len() && self.count@[x].0 == *k {
                            let x = choose|x: int| 0 <= x < self.count@.len() && self.count@[x].0 == *k;
                            if x < i {
                                assert(old_count[x].0 == *k);
                            } else {
                                assert(old_count[x + 1].0 == *k);
                            }
                        }
                    }
                } else {
                    self.count.set(i, (*k, v));
                    proof {
                        lemma_total_update(old_count, i as int, (*k, v));
                        self.lemma_count_at(i as int);
                        assert forall|j: T| j != *k implies self.count(j) == old(self).count(j) by {
                            if exists|x: int| 0 <= x < old_count.len() && old_count[x].0 == j {
                                let x = choose|x: int| 0 <= x < old_count.len() && old_count[x].0 == j;
                                assert(self.count@[x].0 == j);
                            }
                            if exists|x: int| 0 <= x < self.count@.len() && self.count@[x].0 == j {
                                let x = choose|x: int| 0 <= x < self.count@.len() && self.count@[x].0 == j;
                                assert(old_count[x].0 == j);
                            }
                        }
                        assert(self.count@[i as int].0 == *k);
                        assert(self.key_seq().len() == self.count@.len());
                        assert(old(self).key_seq().len() == old_count.len());
                        assert(old(self).count(*k) > 1);
                    }
                }
                self.total_count = self.total_count - 1;
                Some(v)
            },
        }
    }

    /// How many times `k` was counted.
    pub fn get_count(&self, k: &T) -> (r: usize)
        requires
            self.wf(),
        ensures
            r == self.count(*k),
    {
        match self.find(k) {
            Some(i) => {
                proof {
                    self.lemma_count_at(i as int);
                }
                self.count[i].1
            },
            None => 0,
        }
    }

    /// `true` when `k` has a positive count.
    pub fn is_positive(&self, k: &T) -> (r: bool)
        requires
            self.wf(),
        ensures
            r == (self.count(*k) > 0),
    {
        let r = self.find(k);
        proof {
            if let Some(i) = r {
                self.lemma_count_at(i as int);
            }
        }
        r.is_some()
    }

    /// Number of keys with a positive count.
    pub fn count_unique(&self) -> (r: usize)
        ensures
            r == self.key_seq().len(),
    {
        self.count.len()
    }

    /// The total of the counts.
    pub fn count_total(&self) -> (r: usize)
        ensures
            r == self.total(),
    {
        self.total_count
    }

    /// Every key with a positive count and its count, in the order of `key_seq`.
    pub fn iter(&self) -> (r: Vec<(T, usize)>)
        requires
            self.wf(),
        ensures
            r@.len() == self.key_seq().len(),
            forall|i: int|
                0 <= i < r@.len() ==> (#[trigger] r@[i]).0 == self.key_seq()[i] && r@[i].1 == self.count(
                    self.key_seq()[i],
                ),
    {
        let mut r: Vec<(T, usize)> = Vec::new();
        let mut i: usize = 0;
        while i < self.count.len()
            invariant
                self.wf(),
                i <= self.count@.len(),
                r@ == self.count@.subrange(0, i as int),
            decreases self.count@.len() - i,
        {
            r.push(self.count[i]);
            i = i + 1;
        }
        proof {
            assert forall|x: int| 0 <= x < r@.len() implies (#[trigger] r@[x]).0 == self.key_seq()[x]
                && r@[x].1 == self.count(self.key_seq()[x]) by {
                let k = self.count@[x].0;
                let c = choose|c: int| 0 <= c < self.count@.len() && self.count@[c].0 == k;
                if c != x {
                    assert(self.count@[c].0 != self.count@[x].0);
                }
            }
        }
        r
    }

    /// A counter with the same counts.
    pub fn copy(&self) -> (r: RealCounter<T>)
        requires
            self.wf(),
        ensures
            r.wf(),
            forall|k: T| #[trigger] r.count(k) == self.count(k),
            r.total() == self.total(),
            r.key_seq() == self.key_seq(),
    {
        let mut count: Vec<(T, usize)> = Vec::new();
        let mut i: usize = 0;
        while i < self.count.len()
            invariant
                i <= self.count@.len(),
                count@ == self.count@.subrange(0, i as int),
            decreases self.count@.len() - i,
        {
            count.push(self.count[i]);
            i = i + 1;
        }
        assert(count@ =~= self.count@);
        RealCounter { count, total_count: self.total_count }
    }

    /// `true` when no key has a positive count.
    pub fn is_empty(&self) -> (r: bool)
        requires
            self.wf(),
        ensures
            r == (self.key_seq().len() == 0),
            r ==> forall|k: T| self.count(k) == 0,
    {
        proof {
            self.lemma_wf();
        }
        self.count.len() == 0
    }

    /// The keys with a positive count, in the order of `key_seq`.
    pub fn keys(&self) -> (r: Vec<T>)
        ensures
            r@ == self.key_seq(),
    {
        let mut r: Vec<T> = Vec::new();
        let mut i: usize = 0;
        while i < self.count.len()
            invariant
                i <= self.count@.len(),
                r@ == self.key_seq().subrange(0, i as int),
            decreases self.count@.len() - i,
        {
            r.push(self.count[i].0);
            i = i + 1;
            proof {
                assert(r@ =~= self.key_seq().subrange(0, i as int));
            }
        }
        proof {
            assert(r@ =~= self.key_seq());
        }
        r
    }

    /// Forgets key `k` and all its counts.
    pub fn remove(&mut self, k: &T)
        requires
            old(self).wf(),
        ensures
            final(self).wf(),
            final(self).count(*k) == 0,
            forall|j: T| j != *k ==> final(self).count(j) == old(self).count(j),
            final(self).total() == old(self).total() - old(self).count(*k),
    {
        let ghost old_count = self.count@;
        match self.find(k) {
            None => {},
            Some(i) => {
                let v = self.count[i].1;
                proof {
                    lemma_total_bounds(old_count, i as int);
                    old(self).lemma_count_at(i as int);
                }
                self.count.remove(i);
                proof {
                    lemma_total_remove(old_count, i as int);
                    assert forall|j: T| j != *k implies self.count(j) == old(self).count(j) by {
                        if exists|x: int| 0 <= x < old_count.len() && old_count[x].0 == j {
                            let x = choose|x: int| 0 <= x < old_count.len() && old_count[x].0 == j;
                            if x < i {
                                assert(self.count@[x].0 == j);
                            } else {
                                assert(self.count@[x - 1].0 == j);
                            }
                        }
                        if exists|x: int| 0 <= x < self.count@.len() && self.count@[x].0 == j {
                            let x = choose|x: int| 0 <= x < self.count@.len() && self.count@[x].0 == j;
                            if x < i {
                                assert(old_count[x].0 == j);
                            } else {
                                assert(old_count[x + 1].0 == j);
                            }
                        }
                    }
                    if exists|x: int| 0 <= x < self.count@.len() && self.count@[x].0 == *k {
                        let x = choose|x: int| 0 <= x < self.count@.len() && self.count@[x].0 == *k;
                        if x < i {
                            assert(old_count[x].0 == *k);
                        } else {
                            assert(old_count[x + 1].0 == *k);
                        }
                    }
                }
                self.total_count = self.total_count - v;
            },
        }
    }

    /// Forgets every key.
    pub fn clear(&mut self)
        ensures
            final(self).wf(),
            forall|k: T| final(self).count(k) == 0,
            final(self).total() == 0,
            final(self).key_seq().len() == 0,
    {
        self.count = Vec::new();
        self.total_count = 0;
    }
}

impl<T: CounterKey> Default for RealCounter<T> {
    fn default() -> (r: RealCounter<T>)
        ensures
            r.wf(),
            forall|k: T| r.count(k) == 0,
            r.total() == 0,
    {
        RealCounter::new()
    }
}

} // verus!
