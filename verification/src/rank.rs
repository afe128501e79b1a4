//! Dense ranking of group totals.
//!
//! A total ranks by how many distinct totals are better than it: the best
//! total has rank 1, ties share a rank, and the next distinct total always
//! follows immediately. Totals are sums of deductions, so a greater total
//! (fewer violations) is the better one.

use vstd::prelude::*;
use vstd::relations::injective_on;
use vstd::set_lib::*;

verus! {

/// The totals of `totals` that are better than `t`.
pub open spec fn better_totals(totals: Set<int>, t: int) -> Set<int> {
    totals.filter(|v: int| v > t)
}

/// The dense rank of total `t` among `totals`: one more than the number of
/// distinct totals that are better.
pub open spec fn dense_rank(totals: Set<int>, t: int) -> int {
    1 + better_totals(totals, t).len() as int
}

/// The set of the numbers in a sequence.
pub open spec fn int_set(s: Seq<i64>) -> Set<int>
    decreases s.len(),
{
    if s.len() == 0 {
        Set::empty()
    } else {
        int_set(s.drop_last()).insert(s.last() as int)
    }
}

/// The totals that occur in a list of (key, total) pairs.
pub open spec fn totals_of<K>(pairs: Seq<(K, i32)>) -> Set<int>
    decreases pairs.len(),
{
    if pairs.len() == 0 {
        Set::empty()
    } else {
        totals_of(pairs.drop_last()).insert(pairs.last().1 as int)
    }
}

/// `int_set` is finite and holds exactly the elements of the sequence.
pub proof fn lemma_int_set(s: Seq<i64>)
    ensures
        int_set(s).finite(),
        int_set(s).len() <= s.len(),
        forall|v: int|
            int_set(s).contains(v) <==> exists|i: int| 0 <= i < s.len() && #[trigger] s[i] as int == v,
    decreases s.len(),
{
    if s.len() > 0 {
        let rest = s.drop_last();
        lemma_int_set(rest);
        assert forall|v: int| int_set(s).contains(v) implies exists|i: int|
            0 <= i < s.len() && #[trigger] s[i] as int == v by {
            if v == s.last() as int {
                assert(s[s.len() - 1] as int == v);
            } else {
                let i = choose|i: int| 0 <= i < rest.len() && #[trigger] rest[i] as int == v;
                assert(s[i] as int == v);
            }
        }
        assert forall|v: int|
            (exists|i: int| 0 <= i < s.len() && #[trigger] s[i] as int == v) implies int_set(
            s,
        ).contains(v) by {
            let i = choose|i: int| 0 <= i < s.len() && #[trigger] s[i] as int == v;
            if i < s.len() - 1 {
                assert(rest[i] as int == v);
            }
        }
    }
}

/// `totals_of` is finite and holds exactly the totals of the pairs.
pub proof fn lemma_totals_of<K>(pairs: Seq<(K, i32)>)
    ensures
        totals_of(pairs).finite(),
        forall|v: int|
            totals_of(pairs).contains(v) <==> exists|i: int|
                0 <= i < pairs.len() && #[trigger] pairs[i].1 as int == v,
    decreases pairs.len(),
{
    if pairs.len() > 0 {
        let rest = pairs.drop_last();
        lemma_totals_of(rest);
        assert forall|v: int| totals_of(pairs).contains(v) implies exists|i: int|
            0 <= i < pairs.len() && #[trigger] pairs[i].1 as int == v by {
            if v == pairs.last().1 as int {
                assert(pairs[pairs.len() - 1].1 as int == v);
            } else {
                let i = choose|i: int| 0 <= i < rest.len() && #[trigger] rest[i].1 as int == v;
                assert(pairs[i].1 as int == v);
            }
        }
        assert forall|v: int|
            (exists|i: int|
                0 <= i < pairs.len() && #[trigger] pairs[i].1 as int == v) implies totals_of(
            pairs,
        ).contains(v) by {
            let i = choose|i: int| 0 <= i < pairs.len() && #[trigger] pairs[i].1 as int == v;
            if i < pairs.len() - 1 {
                assert(rest[i].1 as int == v);
            }
        }
    }
}

/// Ranks follow totals: equal totals have equal ranks, and a total that takes
/// part in the ranking has a strictly smaller rank than any worse total.
pub proof fn lemma_rank_follows_total(totals: Set<int>, t1: int, t2: int)
    requires
        totals.finite(),
    ensures
        t1 == t2 ==> dense_rank(totals, t1) == dense_rank(totals, t2),
        totals.contains(t1) && t1 > t2 ==> dense_rank(totals, t1) < dense_rank(totals, t2),
        t1 >= t2 ==> dense_rank(totals, t1) <= dense_rank(totals, t2),
{
    if t1 >= t2 {
        let b1 = better_totals(totals, t1);
        let b2 = better_totals(totals, t2);
        totals.lemma_len_filter(|v: int| v > t2);
        if totals.contains(t1) && t1 > t2 {
            assert(b2.contains(t1));
            assert(b1.subset_of(b2.remove(t1)));
            lemma_len_subset(b1, b2.remove(t1));
        } else {
            assert(b1.subset_of(b2));
            lemma_len_subset(b1, b2);
        }
    }
}

/// Every rank lies between 1 and the number of distinct totals, and the best
/// total has rank 1.
pub proof fn lemma_rank_bounds(totals: Set<int>, t: int)
    requires
        totals.finite(),
    ensures
        1 <= dense_rank(totals, t) <= totals.len() + 1,
        totals.contains(t) ==> dense_rank(totals, t) <= totals.len(),
        (forall|v: int| totals.contains(v) ==> v <= t) ==> dense_rank(totals, t) == 1,
{
    let b = better_totals(totals, t);
    totals.lemma_len_filter(|v: int| v > t);
    if totals.contains(t) {
        assert(b.subset_of(totals.remove(t)));
        lemma_len_subset(b, totals.remove(t));
    }
    if forall|v: int| totals.contains(v) ==> v <= t {
        assert(b =~= Set::empty());
    }
}

/// From a total to the next worse one the rank grows by exactly one, however
/// many groups share either total.
pub proof fn lemma_next_total_has_next_rank(totals: Set<int>, t1: int, t2: int)
    requires
        totals.finite(),
        totals.contains(t1),
        t1 > t2,
        forall|v: int| totals.contains(v) ==> v >= t1 || v <= t2,
    ensures
        dense_rank(totals, t2) == dense_rank(totals, t1) + 1,
{
    let b1 = better_totals(totals, t1);
    let b2 = better_totals(totals, t2);
    totals.lemma_len_filter(|v: int| v > t1);
    assert(b2 =~= b1.insert(t1));
}

/// The ranks that are assigned are exactly 1, 2, ..., K, where K is the
/// number of distinct totals: no rank is skipped, however large a tie is.
pub proof fn lemma_ranks_have_no_gaps(totals: Set<int>)
    requires
        totals.finite(),
    ensures
        totals.map(|t: int| dense_rank(totals, t)) == set_int_range(1, totals.len() as int + 1),
{
    let rank = |t: int| dense_rank(totals, t);
    let assigned = totals.map(rank);
    let range = set_int_range(1, totals.len() as int + 1);
    assert(injective_on(rank, totals)) by {
        assert forall|x1: int, x2: int|
            totals.contains(x1) && totals.contains(x2) && #[trigger] rank(x1) == #[trigger] rank(
                x2,
            ) implies x1 == x2 by {
            lemma_rank_follows_total(totals, x1, x2);
            lemma_rank_follows_total(totals, x2, x1);
        }
    }
    lemma_map_size(totals, assigned, rank);
    lemma_int_range(1, totals.len() as int + 1);
    assert(assigned.subset_of(range)) by {
        assert forall|r: int| assigned.contains(r) implies range.contains(r) by {
            let t = choose|t: int| totals.contains(t) && r == rank(t);
            lemma_rank_bounds(totals, t);
        }
    }
    lemma_subset_equality(assigned, range);
}

/// Of the ranks that a list of (key, total) pairs is given: keys with equal
/// totals have equal ranks, a key with a better total has a smaller rank, and
/// every rank lies between 1 and the number of distinct totals.
pub proof fn lemma_assigned_ranks<K>(pairs: Seq<(K, i32)>, i: int, j: int)
    requires
        0 <= i < pairs.len(),
        0 <= j < pairs.len(),
    ensures
        pairs[i].1 == pairs[j].1 ==> dense_rank(totals_of(pairs), pairs[i].1 as int) == dense_rank(
            totals_of(pairs),
            pairs[j].1 as int,
        ),
        pairs[i].1 > pairs[j].1 ==> dense_rank(totals_of(pairs), pairs[i].1 as int) < dense_rank(
            totals_of(pairs),
            pairs[j].1 as int,
        ),
        1 <= dense_rank(totals_of(pairs), pairs[i].1 as int) <= totals_of(pairs).len(),
{
    lemma_totals_of(pairs);
    assert(totals_of(pairs).contains(pairs[i].1 as int));
    lemma_rank_follows_total(totals_of(pairs), pairs[i].1 as int, pairs[j].1 as int);
    lemma_rank_bounds(totals_of(pairs), pairs[i].1 as int);
}

/// Every rank from 1 to the number of distinct totals is given to some key:
/// no rank is skipped.
pub proof fn lemma_every_rank_is_assigned<K>(pairs: Seq<(K, i32)>, r: int)
    requires
        1 <= r <= totals_of(pairs).len(),
    ensures
        exists|i: int|
            0 <= i < pairs.len() && dense_rank(totals_of(pairs), (#[trigger] pairs[i]).1 as int)
                == r,
{
    let totals = totals_of(pairs);
    lemma_totals_of(pairs);
    lemma_ranks_have_no_gaps(totals);
    let rank = |t: int| dense_rank(totals, t);
    assert(set_int_range(1, totals.len() as int + 1).contains(r));
    assert(totals.map(rank).contains(r));
    let t = choose|t: int| totals.contains(t) && r == rank(t);
    let i = choose|i: int| 0 <= i < pairs.len() && #[trigger] pairs[i].1 as int == t;
    assert(dense_rank(totals, pairs[i].1 as int) == r);
}

/// A collection of the distinct totals of one ranking scope, from which the
/// rank of any total can be read.
pub struct RankScale {
    levels: Vec<i64>,
}

impl View for RankScale {
    type V = Set<int>;

    closed spec fn view(&self) -> Set<int> {
        int_set(self.levels@)
    }
}

impl RankScale {
    /// No total is held twice.
    pub closed spec fn wf(&self) -> bool {
        self.levels@.no_duplicates()
    }

    /// A scale without totals.
    pub fn new() -> (scale: Self)
        ensures
            scale.wf(),
            scale@ == Set::<int>::empty(),
    {
        RankScale { levels: Vec::new() }
    }

    /// The totals of a scale are finitely many.
    pub proof fn lemma_finite(&self)
        ensures
            self@.finite(),
    {
        lemma_int_set(self.levels@);
    }

    /// Whether `total` is on the scale.
    pub fn contains(&self, total: i64) -> (found: bool)
        ensures
            found == self@.contains(total as int),
    {
        proof {
            lemma_int_set(self.levels@);
        }
        let mut i: usize = 0;
        while i < self.levels.len()
            invariant
                i <= self.levels.len(),
                forall|j: int| 0 <= j < i ==> self.levels@[j] != total,
            decreases self.levels.len() - i,
        {
            if self.levels[i] == total {
                proof {
                    lemma_int_set(self.levels@);
                    assert(self.levels@[i as int] as int == total as int);
                }
                return true;
            }
            i = i + 1;
        }
        false
    }

    /// Puts `total` on the scale.
    pub fn add(&mut self, total: i64)
        requires
            old(self).wf(),
        ensures
            final(self).wf(),
            final(self)@ == old(self)@.insert(total as int),
            final(self)@.len() <= old(self)@.len() + 1,
    {
        proof {
            lemma_int_set(self.levels@);
        }
        if !self.contains(total) {
            let ghost before = self.levels@;
            self.levels.push(total);
            proof {
                assert(self.levels@.drop_last() =~= before);
                assert(forall|j: int| 0 <= j < before.len() ==> before[j] as int != total as int);
            }
        } else {
            assert(self@.insert(total as int) =~= self@);
        }
    }

    /// The dense rank of `total` among the totals on the scale.
    pub fn rank_of(&self, total: i64) -> (rank: i64)
        requires
            self.wf(),
            self@.len() < i64::MAX,
        ensures
            rank == dense_rank(self@, total as int),
    {
        proof {
            lemma_int_set(self.levels@);
            self.levels@.unique_seq_to_set();
            lemma_int_set_len(self.levels@);
        }
        let mut rank: i64 = 1;
        let mut i: usize = 0;
        assert(better_totals(int_set(self.levels@.take(0)), total as int) =~= Set::empty());
        while i < self.levels.len()
            invariant
                i <= self.levels.len(),
                self.levels@.no_duplicates(),
                self.levels@.len() < i64::MAX,
                rank == dense_rank(int_set(self.levels@.take(i as int)), total as int),
                1 <= rank <= i + 1,
            decreases self.levels.len() - i,
        {
            proof {
                let prefix = self.levels@.take(i as int);
                let next = self.levels@.take(i + 1);
                let x = self.levels@[i as int] as int;
                assert(next.drop_last() =~= prefix);
                lemma_int_set(prefix);
                assert(!int_set(prefix).contains(x));
                let b = better_totals(int_set(prefix), total as int);
                int_set(prefix).lemma_len_filter(|v: int| v > total as int);
                if x > total {
                    assert(better_totals(int_set(next), total as int) =~= b.insert(x));
                } else {
                    assert(better_totals(int_set(next), total as int) =~= b);
                }
            }
            if self.levels[i] > total {
                rank = rank + 1;
            }
            i = i + 1;
        }
        assert(self.levels@.take(i as int) =~= self.levels@);
        rank
    }
}

/// A sequence without repetitions has as many elements as its set.
pub proof fn lemma_int_set_len(s: Seq<i64>)
    requires
        s.no_duplicates(),
    ensures
        int_set(s).len() == s.len(),
    decreases s.len(),
{
    if s.len() > 0 {
        let rest = s.drop_last();
        lemma_int_set_len(rest);
        lemma_int_set(rest);
        assert(!int_set(rest).contains(s.last() as int)) by {
            if int_set(rest).contains(s.last() as int) {
                let i = choose|i: int| 0 <= i < rest.len() && #[trigger] rest[i] as int == s.last() as int;
                assert(s[i] == s[s.len() - 1]);
            }
        }
    }
}

/// Assigns every key of a list of (key, total) pairs its dense rank. The
/// result lists the keys in the order given, each with its rank.
pub fn compute_ranks<'a, K>(totals: &'a [(K, i32)]) -> (ranks: Vec<(&'a K, i64)>)
    ensures
        ranks@.len() == totals@.len(),
        forall|i: int|
            0 <= i < totals@.len() ==> *(#[trigger] ranks@[i]).0 == totals@[i].0 && ranks@[i].1
                == dense_rank(totals_of(totals@), totals@[i].1 as int),
{
    let mut scale = RankScale::new();
    let mut i: usize = 0;
    while i < totals.len()
        invariant
            i <= totals.len(),
            scale.wf(),
            scale@ == totals_of(totals@.take(i as int)),
        decreases totals.len() - i,
    {
        proof {
            assert(totals@.take(i + 1).drop_last() =~= totals@.take(i as int));
        }
        scale.add(totals[i].1 as i64);
        i = i + 1;
    }
    proof {
        assert(totals@.take(i as int) =~= totals@);
        lemma_totals_of(totals@);
        let all = set_int_range(i32::MIN as int, i32::MAX as int + 1);
        lemma_int_range(i32::MIN as int, i32::MAX as int + 1);
        assert(scale@.subset_of(all));
        lemma_len_subset(scale@, all);
    }
    let mut ranks: Vec<(&'a K, i64)> = Vec::new();
    let mut j: usize = 0;
    while j < totals.len()
        invariant
            j <= totals.len(),
            scale.wf(),
            scale@ == totals_of(totals@),
            scale@.len() < i64::MAX,
            ranks@.len() == j,
            forall|i: int|
                0 <= i < j ==> *(#[trigger] ranks@[i]).0 == totals@[i].0 && ranks@[i].1
                    == dense_rank(totals_of(totals@), totals@[i].1 as int),
        decreases totals.len() - j,
    {
        let rank = scale.rank_of(totals[j].1 as i64);
        ranks.push((&totals[j].0, rank));
        j = j + 1;
    }
    ranks
}

} // verus!
