//! Grid-array trimming: ranking the antennas of a square grid by how much
//! redundancy they add to the baseline distribution, and removing the most
//! redundant ones as long as no baseline disappears.
//!
//! A baseline is the coordinate difference of an ordered antenna pair.
//! `get_baseline` tallies how often each baseline occurs; an antenna's
//! grade sums the multiplicities of all baselines it takes part in, so a
//! high grade marks an antenna whose baselines are well covered by the
//! rest of the array.

use vstd::prelude::*;

verus! {

/// Coordinate bound under which all baseline differences stay inside
/// `isize`.
pub open spec fn coord_limit() -> int {
    isize::MAX as int / 2
}

/// Every antenna coordinate is within the safe range.
pub open spec fn coords_bounded(s: Seq<(isize, isize)>) -> bool {
    forall|m: int| #![trigger s[m]]
        0 <= m < s.len() ==> -coord_limit() <= s[m].0 <= coord_limit() && -coord_limit()
            <= s[m].1 <= coord_limit()
}

/// The baseline of the `m`-th ordered antenna pair, pairs being numbered
/// row-major: pair `m` points from antenna `m / n` to antenna `m % n`.
pub open spec fn diff_of(s: Seq<(isize, isize)>, m: int) -> (isize, isize) {
    ((s[m % (s.len() as int)].0 - s[m / (s.len() as int)].0) as isize,
     (s[m % (s.len() as int)].1 - s[m / (s.len() as int)].1) as isize)
}

/// How many of the first `m` ordered pairs have baseline `k`.
pub open spec fn baseline_count_upto(s: Seq<(isize, isize)>, k: (isize, isize), m: int) -> nat
    decreases m,
{
    if m <= 0 {
        0
    } else {
        baseline_count_upto(s, k, m - 1) + if diff_of(s, m - 1) == k {
            1nat
        } else {
            0nat
        }
    }
}

/// Multiplicity of baseline `k` over all ordered antenna pairs.
pub open spec fn baseline_count(s: Seq<(isize, isize)>, k: (isize, isize)) -> nat {
    baseline_count_upto(s, k, (s.len() * s.len()) as int)
}

/// Baseline `k` occurs in the array.
pub open spec fn baseline_appears(s: Seq<(isize, isize)>, k: (isize, isize)) -> bool {
    exists|m: int| 0 <= m < s.len() * s.len() && diff_of(s, m) == k
}

/// Number of distinct baselines of the array.
pub open spec fn distinct_baselines(s: Seq<(isize, isize)>) -> nat {
    Set::new(|k: (isize, isize)| baseline_appears(s, k)).len()
}

proof fn lemma_count_upto_le(s: Seq<(isize, isize)>, k: (isize, isize), m: int)
    requires
        m >= 0,
    ensures
        baseline_count_upto(s, k, m) <= m,
    decreases m,
{
    if m > 0 {
        lemma_count_upto_le(s, k, m - 1);
    }
}

proof fn lemma_count_upto_pos(s: Seq<(isize, isize)>, k: (isize, isize), m: int)
    requires
        m >= 0,
    ensures
        baseline_count_upto(s, k, m) > 0 <==> exists|m2: int| 0 <= m2 < m && diff_of(s, m2) == k,
    decreases m,
{
    if m > 0 {
        lemma_count_upto_pos(s, k, m - 1);
        if baseline_count_upto(s, k, m) > 0 {
            if diff_of(s, m - 1) == k {
                assert(0 <= m - 1 < m && diff_of(s, m - 1) == k);
            }
        }
        if exists|m2: int| 0 <= m2 < m && diff_of(s, m2) == k {
            let m2 = choose|m2: int| 0 <= m2 < m && diff_of(s, m2) == k;
            if m2 < m - 1 {
                assert(baseline_count_upto(s, k, m - 1) > 0);
            }
        }
    }
}

/// Sum of a sequence of tallies.
pub open spec fn tally_total(s: Seq<usize>) -> int
    decreases s.len(),
{
    if s.len() == 0 {
        0
    } else {
        tally_total(s.drop_last()) + s.last()
    }
}

proof fn lemma_tally_total_update(s: Seq<usize>, i: int, v: usize)
    requires
        0 <= i < s.len(),
    ensures
        tally_total(s.update(i, v)) == tally_total(s) - s[i] + v,
    decreases s.len(),
{
    if i == s.len() - 1 {
        assert(s.update(i, v).drop_last() =~= s.drop_last());
        assert(s.update(i, v).last() == v);
    } else {
        assert(s.update(i, v).drop_last() =~= s.drop_last().update(i, v));
        lemma_tally_total_update(s.drop_last(), i, v);
        assert(s.update(i, v).last() == s.last());
    }
}

/// Tally of baseline multiplicities, keyed by the baseline difference.
pub struct BaselineMap {
    keys: Vec<(isize, isize)>,
    counts: Vec<usize>,
}

impl BaselineMap {
    pub closed spec fn keys_seq(self) -> Seq<(isize, isize)> {
        self.keys@
    }

    pub closed spec fn counts_seq(self) -> Seq<usize> {
        self.counts@
    }

    /// One count per key, no key twice.
    pub open spec fn wf(self) -> bool {
        &&& self.counts_seq().len() == self.keys_seq().len()
        &&& self.keys_seq().no_duplicates()
    }

    pub open spec fn num_keys(self) -> int {
        self.keys_seq().len() as int
    }

    pub open spec fn has_key(self, k: (isize, isize)) -> bool {
        self.keys_seq().contains(k)
    }

    /// Sum of all tallies: the number of occurrences recorded so far.
    pub open spec fn total(self) -> int {
        tally_total(self.counts_seq())
    }

    /// The tally of `k`; zero when `k` is absent.
    pub open spec fn count_of(self, k: (isize, isize)) -> int {
        if self.has_key(k) {
            self.counts_seq()[self.keys_seq().index_of(k)] as int
        } else {
            0
        }
    }

    pub fn new() -> (m: BaselineMap)
        ensures
            m.wf(),
            m.num_keys() == 0,
            forall|k: (isize, isize)| !(#[trigger] m.has_key(k)),
            forall|k: (isize, isize)| #[trigger] m.count_of(k) == 0,
            m.total() == 0,
    {
        BaselineMap { keys: Vec::new(), counts: Vec::new() }
    }

    /// Number of distinct baselines tallied.
    pub fn len(&self) -> (n: usize)
        ensures
            n as int == self.num_keys(),
    {
        self.keys.len()
    }

    /// The distinct baselines, in first-seen order.
    pub fn keys(&self) -> (r: &Vec<(isize, isize)>)
        ensures
            r@ == self.keys_seq(),
    {
        &self.keys
    }

    /// The tally of `k`, which must be present.
    pub fn get(&self, k: (isize, isize)) -> (c: usize)
        requires
            self.wf(),
            self.has_key(k),
        ensures
            c as int == self.count_of(k),
    {
        let n: usize = self.keys.len();
        let mut idx: usize = 0;
        loop
            invariant_except_break
                self.wf(),
                self.has_key(k),
                n == self.keys_seq().len(),
                idx < n,
                forall|m: int| 0 <= m < idx ==> self.keys_seq()[m] != k,
            ensures
                idx < n,
                self.keys_seq()[idx as int] == k,
            decreases n - idx,
        {
            let kk: (isize, isize) = self.keys[idx];
            if kk.0 == k.0 && kk.1 == k.1 {
                proof {
                    assert(kk == k);
                }
                break;
            }
            proof {
                if idx + 1 == n {
                    let w = choose|j: int| 0 <= j < self.keys_seq().len()
                        && self.keys_seq()[j] == k;
                    assert(false);
                }
            }
            idx = idx + 1;
        }
        proof {
            lemma_index_of_unique(self.keys_seq(), k, idx as int);
        }
        self.counts[idx]
    }

    /// Adds one occurrence of baseline `k` to the tally.
    pub fn increment(&mut self, k: (isize, isize))
        requires
            old(self).wf(),
            old(self).count_of(k) < usize::MAX,
        ensures
            final(self).wf(),
            final(self).has_key(k),
            final(self).count_of(k) == old(self).count_of(k) + 1,
            forall|k2: (isize, isize)|
                k2 != k ==> #[trigger] final(self).count_of(k2) == old(self).count_of(k2),
            forall|k2: (isize, isize)|
                #[trigger] final(self).has_key(k2) <==> (old(self).has_key(k2) || k2 == k),
            final(self).num_keys() == old(self).num_keys() + if old(self).has_key(k) {
                0int
            } else {
                1int
            },
            final(self).total() == old(self).total() + 1,
    {
        let n: usize = self.keys.len();
        let mut found: bool = false;
        let mut at: usize = 0;
        let mut idx: usize = 0;
        while idx < n
            invariant
                self.keys@ == old(self).keys@,
                self.counts@ == old(self).counts@,
                n == self.keys_seq().len(),
                idx <= n,
                !found ==> forall|m: int| 0 <= m < idx ==> self.keys_seq()[m] != k,
                found ==> at < n && self.keys_seq()[at as int] == k,
            decreases n - idx,
        {
            let kk: (isize, isize) = self.keys[idx];
            if kk.0 == k.0 && kk.1 == k.1 {
                proof {
                    assert(kk == k);
                }
                found = true;
                at = idx;
            }
            idx = idx + 1;
        }
        if found {
            proof {
                lemma_index_of_unique(self.keys_seq(), k, at as int);
            }
            let c: usize = self.counts[at];
            self.counts.set(at, c + 1);
            proof {
                lemma_tally_total_update(old(self).counts_seq(), at as int, (c + 1) as usize);
                lemma_index_of_unique(self.keys_seq(), k, at as int);
                assert forall|k2: (isize, isize)| k2 != k
                    implies #[trigger] final(self).count_of(k2) == old(self).count_of(k2) by {
                    if old(self).has_key(k2) {
                        let i2 = old(self).keys_seq().index_of(k2);
                        assert(old(self).keys_seq()[i2] == k2);
                        lemma_index_of_unique(self.keys_seq(), k2, i2);
                        assert(i2 != at);
                    }
                }
            }
        } else {
            proof {
                assert(!old(self).has_key(k));
            }
            self.keys.push(k);
            self.counts.push(1);
            proof {
                assert(self.counts_seq().drop_last() =~= old(self).counts_seq());
                assert(self.counts_seq().last() == 1usize);
                let ks = self.keys_seq();
                let old_ks = old(self).keys_seq();
                assert forall|i: int, j: int| 0 <= i < j < ks.len() implies ks[i] != ks[j] by {
                    if j == ks.len() - 1 {
                        assert(ks[i] == old_ks[i]);
                        assert(!old_ks.contains(k) ==> old_ks[i] != k);
                    }
                }
                assert(ks[n as int] == k);
                lemma_index_of_unique(ks, k, n as int);
                assert(final(self).count_of(k) == 1);
                assert forall|k2: (isize, isize)| k2 != k
                    implies #[trigger] final(self).count_of(k2) == old(self).count_of(k2) by {
                    if old(self).has_key(k2) {
                        let i2 = old_ks.index_of(k2);
                        assert(old_ks[i2] == k2);
                        assert(ks[i2] == k2);
                        lemma_index_of_unique(ks, k2, i2);
                    } else {
                        if final(self).has_key(k2) {
                            let i2 = ks.index_of(k2);
                            assert(ks[i2] == k2);
                            assert(i2 == n as int);
                            assert(false);
                        }
                    }
                }
                assert forall|k2: (isize, isize)|
                    #[trigger] final(self).has_key(k2) <==> (old(self).has_key(k2) || k2 == k) by {
                    if final(self).has_key(k2) && k2 != k {
                        let i2 = choose|j: int| 0 <= j < ks.len() && ks[j] == k2;
                        assert(old_ks[i2] == k2);
                    }
                    if old(self).has_key(k2) {
                        let i2 = choose|j: int| 0 <= j < old_ks.len() && old_ks[j] == k2;
                        assert(ks[i2] == k2);
                    }
                    if k2 == k {
                        assert(ks[n as int] == k2);
                    }
                }
            }
        }
    }
}

/// A key found at a duplicate-free index is the key's unique index.
proof fn lemma_index_of_unique(s: Seq<(isize, isize)>, k: (isize, isize), i: int)
    requires
        s.no_duplicates(),
        0 <= i < s.len(),
        s[i] == k,
    ensures
        s.contains(k),
        s.index_of(k) == i,
{
    assert(s.contains(k));
    let ci = s.index_of(k);
    assert(s[ci] == k);
    if ci < i {
        assert(s[ci] != s[i]);
    }
    if i < ci {
        assert(s[i] != s[ci]);
    }
}

/// Canonical form of a baseline; the identity, since both orientations of
/// a pair are tallied anyway.
pub fn regulate_baseline(bl: (isize, isize)) -> (r: (isize, isize))
    ensures
        r == bl,
{
    bl
}

/// Tallies the baseline of every ordered antenna pair.
pub fn get_baseline(ants: &[(isize, isize)]) -> (r: BaselineMap)
    requires
        coords_bounded(ants@),
        ants@.len() * ants@.len() <= usize::MAX,
    ensures
        r.wf(),
        forall|k: (isize, isize)| #[trigger] r.count_of(k) == baseline_count(ants@, k),
        forall|k: (isize, isize)| #[trigger] r.has_key(k) <==> baseline_appears(ants@, k),
        r.num_keys() == distinct_baselines(ants@),
        r.total() == ants@.len() * ants@.len(),
{
    let n: usize = ants.len();
    let mut result = BaselineMap::new();
    let mut i: usize = 0;
    let mut m: usize = 0;
    while i < n
        invariant
            coords_bounded(ants@),
            n == ants@.len(),
            n * n <= usize::MAX,
            i <= n,
            m == i * n,
            m <= n * n,
            result.wf(),
            result.total() == m,
            forall|k: (isize, isize)|
                #[trigger] result.count_of(k) == baseline_count_upto(ants@, k, m as int),
            forall|k: (isize, isize)|
                #[trigger] result.has_key(k) <==> baseline_count_upto(ants@, k, m as int) > 0,
        decreases n - i,
    {
        let a1: (isize, isize) = ants[i];
        let mut j: usize = 0;
        while j < n
            invariant
                coords_bounded(ants@),
                n == ants@.len(),
                n * n <= usize::MAX,
                i < n,
                j <= n,
                a1 == ants@[i as int],
                m == i * n + j,
                m <= n * n,
                result.wf(),
                result.total() == m,
                forall|k: (isize, isize)|
                    #[trigger] result.count_of(k) == baseline_count_upto(ants@, k, m as int),
                forall|k: (isize, isize)|
                    #[trigger] result.has_key(k) <==> baseline_count_upto(ants@, k, m as int) > 0,
            decreases n - j,
        {
            let a2: (isize, isize) = ants[j];
            let bl0: (isize, isize) = (a2.0 - a1.0, a2.1 - a1.1);
            let bl: (isize, isize) = regulate_baseline(bl0);
            proof {
                lemma_pair_index(i as int, j as int, n as int);
                assert(diff_of(ants@, m as int) == bl);
                lemma_count_upto_le(ants@, bl, m as int);
                assert(m < n * n) by (nonlinear_arith)
                    requires
                        m == i * n + j,
                        0 <= i < n,
                        0 <= j < n,
                ;
            }
            result.increment(bl);
            m = m + 1;
            proof {
                assert forall|k: (isize, isize)|
                    #[trigger] result.count_of(k) == baseline_count_upto(ants@, k, m as int) by {
                    assert(baseline_count_upto(ants@, k, m as int)
                        == baseline_count_upto(ants@, k, m as int - 1) + if diff_of(
                        ants@, m as int - 1) == k {
                        1nat
                    } else {
                        0nat
                    });
                }
            }
            j = j + 1;
            proof {
                assert(m <= n * n) by (nonlinear_arith)
                    requires
                        m == i * n + j,
                        0 <= i < n,
                        0 <= j <= n,
                ;
            }
        }
        i = i + 1;
        proof {
            assert(m == i * n) by (nonlinear_arith)
                requires
                    m == (i - 1) * n + n,
            ;
        }
    }
    proof {
        assert(m == n * n) by (nonlinear_arith)
            requires
                m == i * n,
                i == n,
        ;
        assert forall|k: (isize, isize)|
            #[trigger] result.has_key(k) <==> baseline_appears(ants@, k) by {
            lemma_count_upto_pos(ants@, k, (n * n) as int);
        }
        let dset = Set::new(|k: (isize, isize)| baseline_appears(ants@, k));
        assert forall|k: (isize, isize)|
            result.keys_seq().to_set().contains(k) <==> dset.contains(k) by {
            assert(result.keys_seq().to_set().contains(k) <==> result.has_key(k));
            assert(dset.contains(k) <==> baseline_appears(ants@, k));
        }
        assert(result.keys_seq().to_set() =~= dset);
        result.keys_seq().unique_seq_to_set();
    }
    result
}

/// An antenna together with its redundancy grade.
pub type GradedAnt = ((isize, isize), usize);

/// Contribution of ordered pair `m` to antenna `k`'s grade: a pair with a
/// nonzero baseline adds the baseline's multiplicity to both of its
/// endpoints.
pub open spec fn grade_pair_contrib(s: Seq<(isize, isize)>, k: int, m: int) -> nat {
    if diff_of(s, m) == (0isize, 0isize) {
        0
    } else {
        (if m / (s.len() as int) == k {
            baseline_count(s, diff_of(s, m))
        } else {
            0nat
        }) + (if m % (s.len() as int) == k {
            baseline_count(s, diff_of(s, m))
        } else {
            0nat
        })
    }
}

/// Antenna `k`'s grade accumulated over the first `m` ordered pairs.
pub open spec fn grade_upto(s: Seq<(isize, isize)>, k: int, m: int) -> nat
    decreases m,
{
    if m <= 0 {
        0
    } else {
        grade_upto(s, k, m - 1) + grade_pair_contrib(s, k, m - 1)
    }
}

/// Antenna `k`'s full redundancy grade.
pub open spec fn grade_of(s: Seq<(isize, isize)>, k: int) -> nat {
    grade_upto(s, k, (s.len() * s.len()) as int)
}

proof fn lemma_grade_upto_mono(s: Seq<(isize, isize)>, k: int, m1: int, m2: int)
    requires
        0 <= m1 <= m2,
    ensures
        grade_upto(s, k, m1) <= grade_upto(s, k, m2),
    decreases m2 - m1,
{
    if m1 < m2 {
        lemma_grade_upto_mono(s, k, m1, m2 - 1);
    }
}

proof fn lemma_grade_upto_bound(s: Seq<(isize, isize)>, k: int, m: int)
    requires
        m >= 0,
    ensures
        grade_upto(s, k, m) <= 2 * (s.len() * s.len()) * m,
    decreases m,
{
    if m > 0 {
        lemma_grade_upto_bound(s, k, m - 1);
        lemma_count_upto_le(s, diff_of(s, m - 1), (s.len() * s.len()) as int);
        assert(2 * (s.len() * s.len()) * (m - 1) + 2 * (s.len() * s.len()) == 2 * (s.len()
            * s.len()) * m) by (nonlinear_arith);
    } else {
        assert(2 * (s.len() * s.len()) * 0 == 0) by (nonlinear_arith);
    }
}

/// A coarse but caller-friendly bound on any grade: twice the pair count
/// squared.  Lets a caller discharge the arithmetic precondition of the
/// grading from the array's length alone.
pub proof fn lemma_grade_of_bound(s: Seq<(isize, isize)>, k: int)
    ensures
        grade_of(s, k) <= 2 * (s.len() * s.len()) * (s.len() * s.len()),
{
    lemma_grade_upto_bound(s, k, (s.len() * s.len()) as int);
}

/// Each antenna paired with half its grade (each pair was tallied in both
/// orientations).
pub open spec fn graded_pairs(s: Seq<(isize, isize)>) -> Seq<GradedAnt> {
    Seq::new(s.len(), |k: int| (s[k], ((grade_of(s, k) / 2) as usize)))
}

/// Stable insertion of `x` into `sorted` by grade: `x` goes after every
/// element whose grade does not exceed its own.
pub open spec fn insert_stable(sorted: Seq<GradedAnt>, x: GradedAnt) -> Seq<GradedAnt>
    decreases sorted.len(),
{
    if sorted.len() == 0 {
        seq![x]
    } else if sorted.last().1 <= x.1 {
        sorted.push(x)
    } else {
        insert_stable(sorted.drop_last(), x).push(sorted.last())
    }
}

/// Stable sort by grade, as left-to-right insertion.
pub open spec fn sort_by_grade(s: Seq<GradedAnt>) -> Seq<GradedAnt>
    decreases s.len(),
{
    if s.len() == 0 {
        Seq::empty()
    } else {
        insert_stable(sort_by_grade(s.drop_last()), s.last())
    }
}

/// Grades appear in nondecreasing order.
pub open spec fn grades_sorted(s: Seq<GradedAnt>) -> bool {
    forall|a: int, b: int| 0 <= a < b < s.len() ==> (#[trigger] s[a]).1 <= (#[trigger] s[b]).1
}

/// The antennas of the array graded and stably sorted by grade.
pub open spec fn sorted_ants_view(s: Seq<(isize, isize)>) -> Seq<(isize, isize)> {
    sort_by_grade(graded_pairs(s)).map_values(|p: GradedAnt| p.0)
}

/// Inserting at the split position `pos` — everything from `pos` on has a
/// strictly larger grade, everything before does not — realizes the
/// stable insertion.
proof fn lemma_insert_stable_at(s: Seq<GradedAnt>, x: GradedAnt, pos: int)
    requires
        0 <= pos <= s.len(),
        forall|m: int| pos <= m < s.len() ==> (#[trigger] s[m]).1 > x.1,
        pos > 0 ==> s[pos - 1].1 <= x.1,
    ensures
        insert_stable(s, x) == s.subrange(0, pos) + seq![x] + s.subrange(pos, s.len() as int),
    decreases s.len(),
{
    if s.len() == 0 {
        assert(insert_stable(s, x) =~= s.subrange(0, 0) + seq![x] + s.subrange(0, 0));
    } else if pos == s.len() {
        assert(s.last().1 <= x.1);
        assert(insert_stable(s, x) =~= s.subrange(0, pos) + seq![x] + s.subrange(
            pos, s.len() as int));
    } else {
        assert(s[s.len() - 1].1 > x.1);
        let d = s.drop_last();
        lemma_insert_stable_at(d, x, pos);
        assert(d.subrange(0, pos) =~= s.subrange(0, pos));
        assert(d.subrange(pos, d.len() as int) =~= s.subrange(pos, s.len() - 1));
        assert(insert_stable(s, x) == insert_stable(d, x).push(s.last()));
        assert((s.subrange(0, pos) + seq![x] + s.subrange(pos, s.len() - 1)).push(s.last())
            =~= s.subrange(0, pos) + seq![x] + s.subrange(pos, s.len() as int));
    }
}

/// Every element of the insertion result comes from the sequence or is
/// the inserted element.
proof fn lemma_insert_stable_elems(s: Seq<GradedAnt>, x: GradedAnt, y: GradedAnt)
    requires
        insert_stable(s, x).contains(y),
    ensures
        s.contains(y) || y == x,
    decreases s.len(),
{
    let t = insert_stable(s, x);
    let w = choose|m: int| 0 <= m < t.len() && t[m] == y;
    if s.len() == 0 {
        assert(y == x);
    } else if s.last().1 <= x.1 {
        if w < s.len() {
            assert(s[w] == y);
        } else {
            assert(y == x);
        }
    } else {
        let u = insert_stable(s.drop_last(), x);
        if w < u.len() {
            assert(u.contains(y));
            lemma_insert_stable_elems(s.drop_last(), x, y);
            if s.drop_last().contains(y) {
                let w2 = choose|m: int| 0 <= m < s.drop_last().len() && s.drop_last()[m] == y;
                assert(s[w2] == y);
            }
        } else {
            assert(y == s.last());
            assert(s[s.len() - 1] == y);
        }
    }
}

/// Stable insertion into a grade-sorted sequence keeps it sorted.
proof fn lemma_insert_stable_sorted(s: Seq<GradedAnt>, x: GradedAnt)
    requires
        grades_sorted(s),
    ensures
        grades_sorted(insert_stable(s, x)),
        insert_stable(s, x).len() == s.len() + 1,
    decreases s.len(),
{
    let t = insert_stable(s, x);
    if s.len() == 0 {
    } else if s.last().1 <= x.1 {
        assert forall|a: int, b: int| 0 <= a < b < t.len() implies (#[trigger] t[a]).1
            <= (#[trigger] t[b]).1 by {
            if b == t.len() - 1 {
                if a < s.len() - 1 {
                    assert(s[a].1 <= s[s.len() - 1].1);
                }
            }
        }
    } else {
        let d = s.drop_last();
        assert(grades_sorted(d)) by {
            assert forall|a: int, b: int| 0 <= a < b < d.len() implies (#[trigger] d[a]).1
                <= (#[trigger] d[b]).1 by {
                assert(s[a].1 <= s[b].1);
            }
        }
        lemma_insert_stable_sorted(d, x);
        let u = insert_stable(d, x);
        assert forall|a: int, b: int| 0 <= a < b < t.len() implies (#[trigger] t[a]).1
            <= (#[trigger] t[b]).1 by {
            if b == t.len() - 1 {
                assert(t[a] == u[a]);
                assert(u.contains(u[a]));
                lemma_insert_stable_elems(d, x, u[a]);
                if d.contains(u[a]) {
                    let w = choose|m: int| 0 <= m < d.len() && d[m] == u[a];
                    assert(s[w].1 <= s[s.len() - 1].1);
                } else {
                    assert(u[a].1 == x.1);
                    assert(x.1 < s.last().1);
                }
            } else {
                assert(t[a] == u[a] && t[b] == u[b]);
            }
        }
    }
}

/// Stable insertion adds exactly the inserted element to the multiset of
/// elements.
proof fn lemma_insert_stable_multiset(s: Seq<GradedAnt>, x: GradedAnt)
    ensures
        insert_stable(s, x).to_multiset() == s.to_multiset().insert(x),
    decreases s.len(),
{
    broadcast use vstd::seq_lib::group_to_multiset_ensures;

    if s.len() == 0 {
        assert(seq![x] =~= Seq::<GradedAnt>::empty().push(x));
        assert(Seq::<GradedAnt>::empty().push(x).to_multiset() =~= Seq::<
            GradedAnt,
        >::empty().to_multiset().insert(x));
        assert(s.to_multiset() =~= Seq::<GradedAnt>::empty().to_multiset());
    } else if s.last().1 <= x.1 {
        assert(s.push(x).to_multiset() =~= s.to_multiset().insert(x));
    } else {
        let d = s.drop_last();
        lemma_insert_stable_multiset(d, x);
        let u = insert_stable(d, x);
        assert(u.push(s.last()).to_multiset() =~= u.to_multiset().insert(s.last()));
        assert(s =~= d.push(s.last()));
        assert(d.push(s.last()).to_multiset() =~= d.to_multiset().insert(s.last()));
        assert(u.to_multiset().insert(s.last()) =~= d.to_multiset().insert(x).insert(s.last()));
        assert(d.to_multiset().insert(x).insert(s.last()) =~= d.to_multiset().insert(
            s.last()).insert(x));
    }
}

/// Sorting by grade orders the grades and permutes nothing in or out.
pub proof fn lemma_sort_by_grade_permutes(s: Seq<GradedAnt>)
    ensures
        grades_sorted(sort_by_grade(s)),
        sort_by_grade(s).to_multiset() == s.to_multiset(),
        sort_by_grade(s).len() == s.len(),
    decreases s.len(),
{
    broadcast use vstd::seq_lib::group_to_multiset_ensures;

    if s.len() == 0 {
    } else {
        let d = s.drop_last();
        lemma_sort_by_grade_permutes(d);
        lemma_insert_stable_sorted(sort_by_grade(d), s.last());
        lemma_insert_stable_multiset(sort_by_grade(d), s.last());
        assert(s =~= d.push(s.last()));
        assert(d.push(s.last()).to_multiset() =~= d.to_multiset().insert(s.last()));
        assert(sort_by_grade(s).to_multiset() =~= s.to_multiset());
    }
}

/// Mapping two sequences with equal element multisets to their first
/// components gives equal element multisets again.
proof fn lemma_map_first_multiset(p: Seq<GradedAnt>, q: Seq<GradedAnt>)
    requires
        p.to_multiset() == q.to_multiset(),
    ensures
        p.map_values(|x: GradedAnt| x.0).to_multiset() == q.map_values(
            |x: GradedAnt| x.0,
        ).to_multiset(),
    decreases p.len(),
{
    broadcast use vstd::seq_lib::group_to_multiset_ensures;

    assert(p.to_multiset().len() == p.len());
    assert(q.to_multiset().len() == q.len());
    if p.len() == 0 {
        assert(q.len() == 0);
        assert(p.map_values(|x: GradedAnt| x.0) =~= q.map_values(|x: GradedAnt| x.0));
    } else {
        let x = p.last();
        assert(p.contains(x));
        assert(p.to_multiset().count(x) > 0);
        assert(q.contains(x));
        let i = choose|i: int| 0 <= i < q.len() && q[i] == x;
        let d = p.drop_last();
        assert(p =~= d.push(x));
        assert(d.push(x).to_multiset() =~= d.to_multiset().insert(x));
        assert(q.remove(i).to_multiset() =~= q.to_multiset().remove(x));
        assert(d.to_multiset() =~= q.remove(i).to_multiset()) by {
            assert(d.to_multiset() =~= p.to_multiset().remove(x));
        }
        lemma_map_first_multiset(d, q.remove(i));
        let f = |x2: GradedAnt| x2.0;
        assert(q.remove(i).map_values(f) =~= q.map_values(f).remove(i));
        assert(q.map_values(f).remove(i).to_multiset() =~= q.map_values(f).to_multiset().remove(
            q.map_values(f)[i],
        ));
        assert(q.map_values(f)[i] == x.0);
        assert(p.map_values(f) =~= d.map_values(f).push(x.0));
        assert(d.map_values(f).push(x.0).to_multiset() =~= d.map_values(
            f,
        ).to_multiset().insert(x.0));
        assert(q.map_values(f).to_multiset().contains(x.0)) by {
            assert(q.map_values(f)[i] == x.0);
            assert(q.map_values(f).contains(x.0));
        }
        assert(q.map_values(f).to_multiset().remove(x.0).insert(x.0) =~= q.map_values(
            f,
        ).to_multiset());
    }
}

/// Grading and sorting only reorders the antennas: the sorted view is a
/// permutation of the array.
pub proof fn lemma_sorted_ants_permute(s: Seq<(isize, isize)>)
    ensures
        sorted_ants_view(s).to_multiset() == s.to_multiset(),
        sorted_ants_view(s).len() == s.len(),
{
    broadcast use vstd::seq_lib::group_to_multiset_ensures;

    lemma_sort_by_grade_permutes(graded_pairs(s));
    lemma_map_first_multiset(sort_by_grade(graded_pairs(s)), graded_pairs(s));
    let f = |x: GradedAnt| x.0;
    assert(graded_pairs(s).map_values(f) =~= s);
}

/// Row-major pair index arithmetic.
proof fn lemma_pair_index(i: int, j: int, n: int)
    requires
        0 <= i < n,
        0 <= j < n,
    ensures
        (i * n + j) / n == i,
        (i * n + j) % n == j,
{
    assert((i * n + j) / n == i && (i * n + j) % n == j) by (nonlinear_arith)
        requires
            0 <= i < n,
            0 <= j < n,
    ;
}

/// Grades every antenna by the summed multiplicities of its baselines and
/// returns the antennas stably sorted by grade, least redundant first.
pub fn sort_ants_by_grade(ants: &[(isize, isize)]) -> (r: Vec<(isize, isize)>)
    requires
        coords_bounded(ants@),
        ants@.len() * ants@.len() <= usize::MAX,
        forall|k: int| 0 <= k < ants@.len() ==> #[trigger] grade_of(ants@, k) <= usize::MAX,
    ensures
        r@ == sorted_ants_view(ants@),
        coords_bounded(r@),
        r@.len() == ants@.len(),
{
    let n: usize = ants.len();
    let bmap = get_baseline(ants);
    let mut grades: Vec<usize> = Vec::new();
    while grades.len() < n
        invariant
            grades@.len() <= n,
            forall|k: int| 0 <= k < grades@.len() ==> #[trigger] grades@[k] == 0,
        decreases n - grades@.len(),
    {
        grades.push(0);
    }
    let mut i: usize = 0;
    let mut m: usize = 0;
    while i < n
        invariant
            coords_bounded(ants@),
            n == ants@.len(),
            n * n <= usize::MAX,
            forall|k: int| 0 <= k < n ==> #[trigger] grade_of(ants@, k) <= usize::MAX,
            bmap.wf(),
            forall|k: (isize, isize)| #[trigger] bmap.count_of(k) == baseline_count(ants@, k),
            forall|k: (isize, isize)| #[trigger] bmap.has_key(k) <==> baseline_appears(ants@, k),
            i <= n,
            m == i * n,
            m <= n * n,
            grades@.len() == n,
            forall|k: int| #![trigger grades@[k]]
                0 <= k < n ==> grades@[k] as nat == grade_upto(ants@, k, m as int),
        decreases n - i,
    {
        let a1: (isize, isize) = ants[i];
        let mut j: usize = 0;
        while j < n
            invariant
                coords_bounded(ants@),
                n == ants@.len(),
                n * n <= usize::MAX,
                forall|k: int| 0 <= k < n ==> #[trigger] grade_of(ants@, k) <= usize::MAX,
                bmap.wf(),
                forall|k: (isize, isize)| #[trigger] bmap.count_of(k) == baseline_count(ants@, k),
                forall|k: (isize, isize)|
                    #[trigger] bmap.has_key(k) <==> baseline_appears(ants@, k),
                i < n,
                j <= n,
                a1 == ants@[i as int],
                m == i * n + j,
                m <= n * n,
                grades@.len() == n,
                forall|k: int| #![trigger grades@[k]]
                    0 <= k < n ==> grades@[k] as nat == grade_upto(ants@, k, m as int),
            decreases n - j,
        {
            proof {
                assert(m < n * n) by (nonlinear_arith)
                    requires
                        m == i * n + j,
                        0 <= i < n,
                        0 <= j < n,
                ;
                lemma_pair_index(i as int, j as int, n as int);
            }
            let a2: (isize, isize) = ants[j];
            let bl: (isize, isize) = (a2.0 - a1.0, a2.1 - a1.1);
            proof {
                assert(diff_of(ants@, m as int) == bl);
            }
            if bl.0 != 0 || bl.1 != 0 {
                proof {
                    assert(baseline_appears(ants@, bl)) by {
                        assert(0 <= m < ants@.len() * ants@.len() && diff_of(
                            ants@, m as int) == bl);
                    }
                    if i == j {
                        assert(bl == (0isize, 0isize));
                    }
                }
                let w: usize = bmap.get(bl);
                proof {
                    assert(grade_pair_contrib(ants@, i as int, m as int) == w);
                    assert(grade_pair_contrib(ants@, j as int, m as int) == w);
                    assert(grade_upto(ants@, i as int, m as int + 1) == grade_upto(
                        ants@, i as int, m as int) + w);
                    assert(grade_upto(ants@, j as int, m as int + 1) == grade_upto(
                        ants@, j as int, m as int) + w);
                    lemma_grade_upto_mono(ants@, i as int, m as int + 1, (n * n) as int);
                    lemma_grade_upto_mono(ants@, j as int, m as int + 1, (n * n) as int);
                    assert(grade_of(ants@, i as int) == grade_upto(
                        ants@, i as int, (n * n) as int));
                    assert(grade_of(ants@, j as int) == grade_upto(
                        ants@, j as int, (n * n) as int));
                    assert(grade_of(ants@, i as int) <= usize::MAX);
                    assert(grade_of(ants@, j as int) <= usize::MAX);
                }
                let gi: usize = grades[i];
                grades.set(i, gi + w);
                let gj: usize = grades[j];
                grades.set(j, gj + w);
            } else {
                proof {
                    assert(bl == (0isize, 0isize));
                    assert(diff_of(ants@, m as int) == (0isize, 0isize));
                }
            }
            m = m + 1;
            j = j + 1;
            proof {
                assert(m <= n * n) by (nonlinear_arith)
                    requires
                        m == i * n + j,
                        0 <= i < n,
                        0 <= j <= n,
                ;
            }
        }
        i = i + 1;
        proof {
            assert(m == i * n) by (nonlinear_arith)
                requires
                    m == (i - 1) * n + n,
            ;
            assert(m <= n * n) by (nonlinear_arith)
                requires
                    m == i * n,
                    0 <= i <= n,
            ;
        }
    }
    proof {
        assert(m == n * n) by (nonlinear_arith)
            requires
                m == i * n,
                i == n,
        ;
    }
    let mut pairs: Vec<GradedAnt> = Vec::new();
    let mut k: usize = 0;
    while k < n
        invariant
            n == ants@.len(),
            grades@.len() == n,
            forall|k2: int| #![trigger grades@[k2]]
                0 <= k2 < n ==> grades@[k2] as nat == grade_of(ants@, k2),
            k <= n,
            pairs@.len() == k,
            forall|k2: int| #![trigger pairs@[k2]]
                0 <= k2 < k ==> pairs@[k2] == graded_pairs(ants@)[k2],
        decreases n - k,
    {
        let a: (isize, isize) = ants[k];
        let g: usize = grades[k] / 2;
        pairs.push((a, g));
        k = k + 1;
    }
    proof {
        assert(pairs@ =~= graded_pairs(ants@));
    }
    let mut sorted: Vec<GradedAnt> = Vec::new();
    let mut t: usize = 0;
    while t < n
        invariant
            n == pairs@.len(),
            t <= n,
            sorted@ == sort_by_grade(pairs@.take(t as int)),
            sorted@.len() == t,
        decreases n - t,
    {
        let x: GradedAnt = pairs[t];
        let mut pos: usize = sorted.len();
        while pos > 0 && sorted[pos - 1].1 > x.1
            invariant
                pos <= sorted@.len(),
                forall|m2: int| pos <= m2 < sorted@.len() ==> (#[trigger] sorted@[m2]).1 > x.1,
            decreases pos,
        {
            pos = pos - 1;
        }
        let ghost pre = sorted@;
        sorted.insert(pos, x);
        proof {
            lemma_insert_stable_at(pre, x, pos as int);
            assert(sorted@ =~= pre.subrange(0, pos as int) + seq![x] + pre.subrange(
                pos as int, pre.len() as int));
            assert(pairs@.take(t as int + 1).drop_last() =~= pairs@.take(t as int));
            assert(pairs@.take(t as int + 1).last() == x);
        }
        t = t + 1;
    }
    proof {
        assert(pairs@.take(n as int) =~= pairs@);
    }
    let mut result: Vec<(isize, isize)> = Vec::new();
    let mut t2: usize = 0;
    while t2 < n
        invariant
            n == sorted@.len(),
            t2 <= n,
            result@.len() == t2,
            forall|m2: int| #![trigger result@[m2]]
                0 <= m2 < t2 ==> result@[m2] == sorted@[m2].0,
        decreases n - t2,
    {
        let p: GradedAnt = sorted[t2];
        result.push(p.0);
        t2 = t2 + 1;
    }
    proof {
        assert(result@ =~= sorted@.map_values(|p: GradedAnt| p.0));
        lemma_sort_by_grade_permutes(pairs@);
        broadcast use vstd::seq_lib::group_to_multiset_ensures;

        assert forall|m2: int| #![trigger result@[m2]]
            0 <= m2 < result@.len() implies -coord_limit() <= result@[m2].0 <= coord_limit()
                && -coord_limit() <= result@[m2].1 <= coord_limit() by {
            assert(sorted@.contains(sorted@[m2]));
            assert(sorted@.to_multiset().count(sorted@[m2]) > 0);
            assert(pairs@.to_multiset().count(sorted@[m2]) > 0);
            assert(pairs@.contains(sorted@[m2]));
            let w = choose|q: int| 0 <= q < pairs@.len() && pairs@[q] == sorted@[m2];
            assert(pairs@[w].0 == ants@[w]);
        }
    }
    result
}

/// The sorted antennas after greedily dropping the most redundant ones:
/// recursion stops at the first suffix removal that would lose a distinct
/// baseline.
pub open spec fn trim_spec(s: Seq<(isize, isize)>, nbl: nat) -> Seq<(isize, isize)>
    decreases s.len(),
{
    if s.len() > 0 && distinct_baselines(s.drop_last()) == nbl {
        trim_spec(s.drop_last(), nbl)
    } else {
        s
    }
}

/// Trimming only removes a suffix: the trimmed array is a prefix of the
/// sequence it trims, so the least redundant antennas are never touched.
pub proof fn lemma_trim_spec_prefix(s: Seq<(isize, isize)>, nbl: nat)
    ensures
        trim_spec(s, nbl).len() <= s.len(),
        trim_spec(s, nbl) == s.take(trim_spec(s, nbl).len() as int),
    decreases s.len(),
{
    if s.len() > 0 && distinct_baselines(s.drop_last()) == nbl {
        let d = s.drop_last();
        lemma_trim_spec_prefix(d, nbl);
        let l = trim_spec(d, nbl).len() as int;
        assert(d.take(l) =~= s.take(l));
    } else {
        assert(s.take(s.len() as int) =~= s);
    }
}

/// Sorts the antennas by redundancy grade and removes the highest-graded
/// ones one by one, as long as the remaining array still realizes every
/// distinct baseline of the full array.
pub fn trim_ants(ants: &[(isize, isize)]) -> (r: Vec<(isize, isize)>)
    requires
        ants@.len() >= 1,
        coords_bounded(ants@),
        ants@.len() * ants@.len() <= usize::MAX,
        forall|k: int| 0 <= k < ants@.len() ==> #[trigger] grade_of(ants@, k) <= usize::MAX,
    ensures
        r@ == trim_spec(sorted_ants_view(ants@), distinct_baselines(ants@)),
        r@.len() >= 1,
{
    let n: usize = ants.len();
    let sorted = sort_ants_by_grade(ants);
    let bl = get_baseline(ants);
    let nbl: usize = bl.len();
    proof {
        assert(0 < ants@.len() * ants@.len()) by (nonlinear_arith)
            requires
                ants@.len() >= 1,
        ;
        assert(diff_of(ants@, 0) == (0isize, 0isize));
        assert(baseline_appears(ants@, (0isize, 0isize)));
        assert(bl.has_key((0isize, 0isize)));
        assert(bl.keys_seq().contains((0isize, 0isize)));
        assert(nbl >= 1);
    }
    let mut cur: Vec<(isize, isize)> = sorted;
    loop
        invariant_except_break
            n == ants@.len(),
            n * n <= usize::MAX,
            1 <= cur@.len() <= n,
            coords_bounded(cur@),
            nbl >= 1,
            nbl as nat == distinct_baselines(ants@),
            trim_spec(cur@, nbl as nat) == trim_spec(
                sorted_ants_view(ants@),
                distinct_baselines(ants@),
            ),
        ensures
            cur@ == trim_spec(sorted_ants_view(ants@), distinct_baselines(ants@)),
            cur@.len() >= 1,
        decreases cur@.len(),
    {
        let len: usize = cur.len();
        let mut probe: Vec<(isize, isize)> = Vec::new();
        let mut t: usize = 0;
        while t < len - 1
            invariant
                len == cur@.len(),
                len >= 1,
                t <= len - 1,
                probe@ == cur@.take(t as int),
            decreases len - 1 - t,
        {
            let a: (isize, isize) = cur[t];
            probe.push(a);
            proof {
                assert(probe@ =~= cur@.take(t as int + 1));
            }
            t = t + 1;
        }
        proof {
            assert(probe@ =~= cur@.drop_last());
            assert(probe@.len() * probe@.len() <= usize::MAX) by (nonlinear_arith)
                requires
                    probe@.len() == cur@.len() - 1,
                    1 <= cur@.len() <= n,
                    n * n <= usize::MAX,
            ;
        }
        let bl1 = get_baseline(probe.as_slice());
        if bl1.len() != nbl {
            break;
        }
        proof {
            if probe@.len() == 0 {
                assert forall|k: (isize, isize)| !baseline_appears(probe@, k) by {
                    if baseline_appears(probe@, k) {
                        let w = choose|m2: int| 0 <= m2 < probe@.len() * probe@.len()
                            && diff_of(probe@, m2) == k;
                        assert(probe@.len() * probe@.len() == 0) by (nonlinear_arith)
                            requires
                                probe@.len() == 0,
                        ;
                        assert(false);
                    }
                }
                assert(Set::new(|k: (isize, isize)| baseline_appears(probe@, k)) =~= Set::<(
                    isize,
                    isize,
                )>::empty());
                assert(distinct_baselines(probe@) == 0);
                assert(false);
            }
        }
        cur = probe;
    }
    cur
}

/// The antennas of a square grid of side `array_size`, centered on the
/// origin, in row-major order.
pub fn get_ants(array_size: usize) -> (r: Vec<(isize, isize)>)
    requires
        array_size as int <= coord_limit(),
        array_size * array_size <= usize::MAX,
    ensures
        r@.len() == array_size * array_size,
        coords_bounded(r@),
        forall|m: int| #![trigger r@[m]]
            0 <= m < r@.len() ==> r@[m].0 as int == -((array_size as int) / 2) + m / (
            array_size as int) && r@[m].1 as int == -((array_size as int) / 2) + m % (
            array_size as int),
{
    let n: isize = array_size as isize;
    let lo: isize = -(n / 2);
    let hi: isize = (n + 1) / 2;
    let mut result: Vec<(isize, isize)> = Vec::new();
    let mut i: isize = lo;
    while i < hi
        invariant
            n == array_size as int,
            n as int <= coord_limit(),
            n * n <= usize::MAX,
            lo as int == -((n as int) / 2),
            hi as int == (n as int + 1) / 2,
            lo <= i <= hi,
            hi as int - lo as int == n as int,
            result@.len() == (i - lo) * n,
            result@.len() <= n * n,
            forall|m: int| #![trigger result@[m]]
                0 <= m < result@.len() ==> result@[m].0 as int == lo + m / (n as int)
                    && result@[m].1 as int == lo + m % (n as int),
        decreases hi as int - i as int,
    {
        let mut j: isize = lo;
        while j < hi
            invariant
                n == array_size as int,
                n as int <= coord_limit(),
                n * n <= usize::MAX,
                lo as int == -((n as int) / 2),
                hi as int == (n as int + 1) / 2,
                lo <= i < hi,
                lo <= j <= hi,
                hi as int - lo as int == n as int,
                result@.len() == (i - lo) * n + (j - lo),
                result@.len() <= n * n,
                forall|m: int| #![trigger result@[m]]
                    0 <= m < result@.len() ==> result@[m].0 as int == lo + m / (n as int)
                        && result@[m].1 as int == lo + m % (n as int),
            decreases hi as int - j as int,
        {
            result.push((i, j));
            proof {
                let a = i as int - lo as int;
                let b = j as int - lo as int;
                lemma_pair_index(a, b, n as int);
                assert(result@.len() == a * n + b + 1);
                assert((i - lo) * (n as int) + (j - lo) + 1 <= n * n) by (nonlinear_arith)
                    requires
                        0 <= i as int - lo as int,
                        i as int - lo as int + 1 <= n as int,
                        0 <= j as int - lo as int,
                        j as int - lo as int + 1 <= n as int,
                        n == array_size as int,
                ;
            }
            j = j + 1;
        }
        i = i + 1;
        proof {
            assert((i as int - 1 - lo as int) * (n as int) + (n as int) == (i as int
                - lo as int) * (n as int)) by (nonlinear_arith);
        }
    }
    proof {
        assert((hi as int - lo as int) * (n as int) == n * n) by (nonlinear_arith)
            requires
                hi as int - lo as int == n as int,
                n == array_size as int,
        ;
        assert forall|m: int| #![trigger result@[m]]
            0 <= m < result@.len() implies -coord_limit() <= result@[m].0 <= coord_limit()
                && -coord_limit() <= result@[m].1 <= coord_limit() by {
            assert(0 <= m / (n as int) && m / (n as int) < n as int && 0 <= m % (n as int)
                && m % (n as int) < n as int) by (nonlinear_arith)
                requires
                    0 <= m,
                    m < (n as int) * (n as int),
                    n as int >= 1,
            ;
        }
    }
    result
}

} // verus!
