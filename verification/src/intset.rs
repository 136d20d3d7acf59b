use vstd::prelude::*;

verus! {

/// A set of `u64` values stored as disjoint closed intervals.
///
/// Equivalent to a set of integers, but membership is recorded one interval
/// per contiguous run instead of one entry per member, which is far more
/// compact when the members cluster into large ranges. Each entry of `ints`
/// is one interval `(low, high)`, inclusive on both ends; closed ranges
/// (rather than half-open ones) let a stored interval reach the largest
/// value of the domain. The entries are kept in ascending order, pairwise
/// disjoint and never adjacent: touching or overlapping intervals are
/// always merged into one.
pub struct IntSet {
    ints: Vec<(u64, u64)>,
}

/// The structural invariant on a sequence of stored intervals: every `low`
/// is at most its `high`, and any two intervals in order leave a gap of at
/// least one value between them (neither overlapping nor adjacent).
pub open spec fn wf_ranges(s: Seq<(u64, u64)>) -> bool {
    &&& forall|i: int| 0 <= i < s.len() ==> (#[trigger] s[i]).0 <= s[i].1
    &&& forall|i: int, j: int|
        0 <= i < j < s.len() ==> (#[trigger] s[i]).1 + 1 < (#[trigger] s[j]).0
}

/// `n` lies inside one of the intervals of `s`.
pub open spec fn ranges_contain(s: Seq<(u64, u64)>, n: int) -> bool {
    exists|i: int| 0 <= i < s.len() && (#[trigger] s[i]).0 <= n && n <= s[i].1
}

/// A value lies in the tail of a well-formed interval sequence exactly when
/// it lies in the whole sequence strictly above the first interval.
proof fn lemma_tail_members(s: Seq<(u64, u64)>, n: int)
    requires
        wf_ranges(s),
        s.len() > 0,
    ensures
        ranges_contain(s.subrange(1, s.len() as int), n)
            <==> (ranges_contain(s, n) && n > s[0].1),
{
    let t = s.subrange(1, s.len() as int);
    if ranges_contain(t, n) {
        let k = choose|k: int| 0 <= k < t.len() && (#[trigger] t[k]).0 <= n && n <= t[k].1;
        assert(t[k] == s[k + 1]);
        assert(s[0].1 + 1 < s[k + 1].0);
        assert(s[k + 1].0 <= n && n <= s[k + 1].1);
        assert(ranges_contain(s, n));
    }
    if ranges_contain(s, n) && n > s[0].1 {
        let k = choose|k: int| 0 <= k < s.len() && (#[trigger] s[k]).0 <= n && n <= s[k].1;
        assert(k > 0);
        assert(t[k - 1] == s[k]);
        assert(t[k - 1].0 <= n && n <= t[k - 1].1);
        assert(ranges_contain(t, n));
    }
}

/// The stored form is canonical: two well-formed interval sequences with
/// the same members are the same sequence.
pub proof fn lemma_ranges_canonical(s1: Seq<(u64, u64)>, s2: Seq<(u64, u64)>)
    requires
        wf_ranges(s1),
        wf_ranges(s2),
        forall|n: int| ranges_contain(s1, n) <==> ranges_contain(s2, n),
    ensures
        s1 == s2,
    decreases s1.len(),
{
    if s1.len() == 0 {
        if s2.len() > 0 {
            assert(s2[0].0 <= s2[0].0 as int <= s2[0].1);
            assert(ranges_contain(s2, s2[0].0 as int));
            assert(false);
        }
        assert(s1 =~= s2);
    } else if s2.len() == 0 {
        assert(s1[0].0 <= s1[0].0 as int <= s1[0].1);
        assert(ranges_contain(s1, s1[0].0 as int));
        assert(false);
    } else {
        // The first intervals start together: each sequence's least member
        // is the first interval's low endpoint.
        assert(s1[0].0 <= s1[0].0 as int <= s1[0].1);
        assert(ranges_contain(s1, s1[0].0 as int));
        let k2 = choose|k: int|
            0 <= k < s2.len() && (#[trigger] s2[k]).0 <= s1[0].0 as int
            && s1[0].0 as int <= s2[k].1;
        if k2 > 0 {
            assert(s2[0].1 + 1 < s2[k2].0);
            assert(s2[0].0 <= s2[0].1);
        }
        assert(s2[0].0 <= s1[0].0);
        assert(s2[0].0 <= s2[0].0 as int <= s2[0].1);
        assert(ranges_contain(s2, s2[0].0 as int));
        let k1 = choose|k: int|
            0 <= k < s1.len() && (#[trigger] s1[k]).0 <= s2[0].0 as int
            && s2[0].0 as int <= s1[k].1;
        if k1 > 0 {
            assert(s1[0].1 + 1 < s1[k1].0);
            assert(s1[0].0 <= s1[0].1);
        }
        assert(s1[0].0 == s2[0].0);

        // And they end together: one value past a shorter first interval
        // would be a member of one sequence but not of the other.
        if s1[0].1 < s2[0].1 {
            let m = s1[0].1 + 1;
            assert(s2[0].0 <= m <= s2[0].1);
            assert(ranges_contain(s2, m));
            let k = choose|k: int| 0 <= k < s1.len() && (#[trigger] s1[k]).0 <= m && m <= s1[k].1;
            if k > 0 {
                assert(s1[0].1 + 1 < s1[k].0);
            }
            assert(false);
        }
        if s2[0].1 < s1[0].1 {
            let m = s2[0].1 + 1;
            assert(s1[0].0 <= m <= s1[0].1);
            assert(ranges_contain(s1, m));
            let k = choose|k: int| 0 <= k < s2.len() && (#[trigger] s2[k]).0 <= m && m <= s2[k].1;
            if k > 0 {
                assert(s2[0].1 + 1 < s2[k].0);
            }
            assert(false);
        }
        assert(s1[0] == s2[0]);

        // The tails have the same members, so they are equal too.
        let t1 = s1.subrange(1, s1.len() as int);
        let t2 = s2.subrange(1, s2.len() as int);
        assert(wf_ranges(t1)) by {
            assert forall|p: int| 0 <= p < t1.len() implies (#[trigger] t1[p]).0 <= t1[p].1 by {
                assert(t1[p] == s1[p + 1]);
            }
            assert forall|p: int, q: int|
                0 <= p < q < t1.len() implies (#[trigger] t1[p]).1 + 1 < (#[trigger] t1[q]).0 by {
                assert(t1[p] == s1[p + 1] && t1[q] == s1[q + 1]);
            }
        }
        assert(wf_ranges(t2)) by {
            assert forall|p: int| 0 <= p < t2.len() implies (#[trigger] t2[p]).0 <= t2[p].1 by {
                assert(t2[p] == s2[p + 1]);
            }
            assert forall|p: int, q: int|
                0 <= p < q < t2.len() implies (#[trigger] t2[p]).1 + 1 < (#[trigger] t2[q]).0 by {
                assert(t2[p] == s2[p + 1] && t2[q] == s2[q + 1]);
            }
        }
        assert forall|n: int| ranges_contain(t1, n) <==> ranges_contain(t2, n) by {
            lemma_tail_members(s1, n);
            lemma_tail_members(s2, n);
        }
        lemma_ranges_canonical(t1, t2);
        assert forall|p: int| 0 <= p < s1.len() implies s1[p] == s2[p] by {
            if p > 0 {
                assert(s1[p] == t1[p - 1] && s2[p] == t2[p - 1]);
            }
        }
        assert(s1 =~= s2);
    }
}

/// Idempotence: adding a range a second time changes nothing. Stated over
/// the members of three snapshots of a set — the one before either call and
/// the ones after each of the two identical calls — the second and third
/// snapshots must be structurally the same.
pub proof fn lemma_add_range_idempotent(
    s0: Seq<(u64, u64)>,
    s1: Seq<(u64, u64)>,
    s2: Seq<(u64, u64)>,
    low: u64,
    high: u64,
)
    requires
        wf_ranges(s1),
        wf_ranges(s2),
        forall|n: int| ranges_contain(s1, n) <==> (ranges_contain(s0, n) || (low <= n <= high)),
        forall|n: int| ranges_contain(s2, n) <==> (ranges_contain(s1, n) || (low <= n <= high)),
    ensures
        s1 == s2,
{
    assert forall|n: int| ranges_contain(s1, n) <==> ranges_contain(s2, n) by {}
    lemma_ranges_canonical(s1, s2);
}

/// Merge closure: starting from the empty set, adding `[a, b]` and then the
/// adjacent range `[b + 1, c]` leaves exactly the one stored interval
/// `[a, c]`.
pub proof fn lemma_adjacent_ranges_merge(
    s1: Seq<(u64, u64)>,
    s2: Seq<(u64, u64)>,
    a: u64,
    b: u64,
    c: u64,
)
    requires
        a <= b,
        b < u64::MAX,
        b + 1 <= c,
        wf_ranges(s1),
        wf_ranges(s2),
        forall|n: int| ranges_contain(s1, n) <==> (a <= n <= b),
        forall|n: int| ranges_contain(s2, n) <==> (ranges_contain(s1, n) || (b + 1 <= n <= c)),
    ensures
        s2 == seq![(a, c)],
{
    let u = seq![(a, c)];
    assert(wf_ranges(u));
    assert forall|n: int| ranges_contain(s2, n) <==> ranges_contain(u, n) by {
        assert(u[0] == (a, c));
        if ranges_contain(u, n) {
            let k = choose|k: int| 0 <= k < u.len() && (#[trigger] u[k]).0 <= n && n <= u[k].1;
            assert(k == 0);
        }
        if a <= n <= c {
            assert(u[0].0 <= n && n <= u[0].1);
            assert(ranges_contain(u, n));
        }
    }
    lemma_ranges_canonical(s2, u);
}

/// Order preservation: read in ascending order, a well-formed interval
/// sequence has strictly increasing low and high endpoints, with a gap of
/// at least one value between any two intervals.
pub proof fn lemma_wf_ranges_ordered(s: Seq<(u64, u64)>)
    requires
        wf_ranges(s),
    ensures
        forall|i: int, j: int|
            0 <= i < j < s.len() ==> ((#[trigger] s[i]).0 < (#[trigger] s[j]).0
                && s[i].1 < s[j].1 && s[i].1 + 1 < s[j].0),
{
    assert forall|i: int, j: int|
        0 <= i < j < s.len() implies ((#[trigger] s[i]).0 < (#[trigger] s[j]).0
            && s[i].1 < s[j].1 && s[i].1 + 1 < s[j].0) by {
        assert(s[i].0 <= s[i].1);
        assert(s[j].0 <= s[j].1);
        assert(s[i].1 + 1 < s[j].0);
    }
}

/// The situation in which `add_range` rewrites the store: `s0` is the old
/// sequence of intervals, `[low, high]` the added range, `probe` one step
/// below `low` and `cap` one step past `high` (both saturating at the
/// domain bounds), `ii..jj` the positions about to be replaced and `ins`
/// their single replacement; `merging` says whether the interval found at
/// `ii` overlaps or touches the new range and is folded into it.
spec fn merge_step_ok(
    s0: Seq<(u64, u64)>,
    ins: (u64, u64),
    ii: int,
    jj: int,
    probe: u64,
    cap: u64,
    low: u64,
    high: u64,
    merging: bool,
) -> bool {
    &&& wf_ranges(s0)
    &&& 0 <= ii <= jj <= s0.len()
    &&& low <= high
    &&& ins.0 <= low
    &&& high <= ins.1
    &&& forall|k: int| 0 <= k < ii ==> (#[trigger] s0[k]).1 < probe
    &&& if low == 0 { probe == 0 } else { probe == low - 1 }
    &&& if high == u64::MAX { cap == u64::MAX } else { cap == high + 1 }
    &&& (merging ==> ii < jj && ii < s0.len()
        && s0[ii].1 >= probe && s0[ii].0 <= cap
        && (ins.0 == low || ins.0 == s0[ii].0) && ins.0 <= s0[ii].0
        && (ins.1 == high || ins.1 == s0[jj - 1].1) && ins.1 >= s0[jj - 1].1
        && (forall|k: int| ii < k < jj ==> (#[trigger] s0[k]).0 <= cap)
        && (jj == s0.len() || s0[jj].0 > cap))
    &&& (!merging ==> jj == ii && ins.0 == low && ins.1 == high
        && (ii == s0.len() || s0[ii].0 > cap))
}

/// Splicing the merged interval over the positions it replaces keeps the
/// invariant.
proof fn lemma_merge_step_wf(
    s0: Seq<(u64, u64)>,
    ins: (u64, u64),
    ii: int,
    jj: int,
    probe: u64,
    cap: u64,
    low: u64,
    high: u64,
    merging: bool,
    t: Seq<(u64, u64)>,
)
    requires
        merge_step_ok(s0, ins, ii, jj, probe, cap, low, high, merging),
        t == s0.subrange(0, ii) + seq![ins] + s0.subrange(jj, s0.len() as int),
    ensures
        wf_ranges(t),
{
    let len = s0.len() as int;
    assert(t.len() == ii + 1 + (len - jj));
    assert forall|p: int| 0 <= p < t.len() implies (#[trigger] t[p]).0 <= t[p].1 by {
        if p < ii {
            assert(t[p] == s0[p]);
        } else if p > ii {
            assert(t[p] == s0[p - ii - 1 + jj]);
        } else {
            assert(t[p] == ins);
        }
    }
    assert forall|p: int, q: int|
        0 <= p < q < t.len() implies (#[trigger] t[p]).1 + 1 < (#[trigger] t[q]).0 by {
        if q < ii {
            assert(t[p] == s0[p] && t[q] == s0[q]);
        } else if q == ii {
            // Everything left of the spliced interval ends below `probe`,
            // hence below both `low` and the merged low endpoint.
            assert(t[p] == s0[p]);
            assert(s0[p].1 < probe);
            if merging {
                assert(s0[p].1 + 1 < s0[ii].0);
            }
        } else {
            let oq = q - ii - 1 + jj;
            assert(t[q] == s0[oq]);
            if p < ii {
                assert(t[p] == s0[p]);
                assert(s0[p].1 + 1 < s0[oq].0);
            } else if p > ii {
                let op = p - ii - 1 + jj;
                assert(t[p] == s0[op]);
                assert(s0[op].1 + 1 < s0[oq].0);
            } else {
                // The interval at `oq` survived the scan, so it starts
                // strictly above `cap`, hence above both `high + 1` and
                // the merged high endpoint.
                if merging {
                    assert(jj < len);
                    assert(s0[jj].0 > cap);
                    assert(high < u64::MAX);
                    if oq > jj {
                        assert(s0[jj].1 + 1 < s0[oq].0);
                        assert(s0[jj].0 <= s0[jj].1);
                    }
                    assert(s0[jj - 1].1 + 1 < s0[oq].0);
                } else {
                    assert(s0[ii].0 > cap);
                    assert(high < u64::MAX);
                    if oq > ii {
                        assert(s0[ii].1 + 1 < s0[oq].0);
                        assert(s0[ii].0 <= s0[ii].1);
                    }
                }
            }
        }
    }
}

/// The spliced sequence holds exactly the old members plus `[low, high]`.
proof fn lemma_merge_step_members(
    s0: Seq<(u64, u64)>,
    ins: (u64, u64),
    ii: int,
    jj: int,
    probe: u64,
    cap: u64,
    low: u64,
    high: u64,
    merging: bool,
    t: Seq<(u64, u64)>,
)
    requires
        merge_step_ok(s0, ins, ii, jj, probe, cap, low, high, merging),
        t == s0.subrange(0, ii) + seq![ins] + s0.subrange(jj, s0.len() as int),
    ensures
        forall|n: int| ranges_contain(t, n) <==> (ranges_contain(s0, n) || (low <= n <= high)),
{
    let len = s0.len() as int;
    assert(t.len() == ii + 1 + (len - jj));
    assert forall|n: int|
        ranges_contain(t, n) <==> (ranges_contain(s0, n) || (low <= n <= high)) by {
        if ranges_contain(t, n) {
            let p = choose|p: int| 0 <= p < t.len() && (#[trigger] t[p]).0 <= n && n <= t[p].1;
            if p < ii {
                assert(t[p] == s0[p]);
                assert(s0[p].0 <= n && n <= s0[p].1);
                assert(ranges_contain(s0, n));
            } else if p > ii {
                let op = p - ii - 1 + jj;
                assert(t[p] == s0[op]);
                assert(s0[op].0 <= n && n <= s0[op].1);
                assert(ranges_contain(s0, n));
            } else if merging {
                if n < low {
                    // Below `low` the merged interval only covers what the
                    // first found interval already held.
                    assert(s0[ii].0 <= n);
                    assert(low > 0);
                    assert(s0[ii].1 >= probe);
                    assert(s0[ii].0 <= n && n <= s0[ii].1);
                    assert(ranges_contain(s0, n));
                } else if n > high {
                    // Above `high` it only covers what the last merged
                    // interval already held.
                    assert(n <= s0[jj - 1].1);
                    assert(high < u64::MAX);
                    if jj - 1 > ii {
                        assert(s0[jj - 1].0 <= cap);
                    }
                    assert(s0[jj - 1].0 <= n && n <= s0[jj - 1].1);
                    assert(ranges_contain(s0, n));
                }
            }
        }
        if ranges_contain(s0, n) {
            let k = choose|k: int| 0 <= k < s0.len() && (#[trigger] s0[k]).0 <= n && n <= s0[k].1;
            if k < ii {
                assert(t[k] == s0[k]);
                assert(t[k].0 <= n && n <= t[k].1);
                assert(ranges_contain(t, n));
            } else if k >= jj {
                let p = k - jj + ii + 1;
                assert(t[p] == s0[k]);
                assert(t[p].0 <= n && n <= t[p].1);
                assert(ranges_contain(t, n));
            } else {
                // A merged-away interval lies inside the spliced one.
                if k > ii {
                    assert(s0[ii].1 + 1 < s0[k].0);
                    assert(s0[ii].0 <= s0[ii].1);
                }
                if k < jj - 1 {
                    assert(s0[k].1 + 1 < s0[jj - 1].0);
                    assert(s0[jj - 1].0 <= s0[jj - 1].1);
                }
                assert(t[ii].0 <= n && n <= t[ii].1);
                assert(ranges_contain(t, n));
            }
        }
        if low <= n <= high {
            assert(t[ii].0 <= n && n <= t[ii].1);
            assert(ranges_contain(t, n));
        }
    }
}

impl View for IntSet {
    type V = Seq<(u64, u64)>;

    closed spec fn view(&self) -> Seq<(u64, u64)> {
        self.ints@
    }
}

impl IntSet {
    /// The set's invariant, restored by every public operation.
    pub open spec fn wf(&self) -> bool {
        wf_ranges(self@)
    }

    /// Creates an empty set.
    pub fn new() -> (r: IntSet)
        ensures
            r.wf(),
            r@ == Seq::<(u64, u64)>::empty(),
    {
        IntSet { ints: Vec::new() }
    }

    /// Position of the first stored interval whose `high` endpoint is at
    /// least `n`, or the number of intervals when there is none. If any
    /// stored interval contains `n`, it is this one.
    fn find(&self, n: u64) -> (i: usize)
        ensures
            i <= self@.len(),
            forall|k: int| 0 <= k < i ==> (#[trigger] self@[k]).1 < n,
            i < self@.len() ==> self@[i as int].1 >= n,
    {
        let mut i: usize = 0;
        while i < self.ints.len()
            invariant
                i <= self@.len(),
                forall|k: int| 0 <= k < i ==> (#[trigger] self@[k]).1 < n,
            decreases self@.len() - i,
        {
            if self.ints[i].1 >= n {
                return i;
            }
            i = i + 1;
        }
        i
    }

    /// Replaces the stored intervals at positions `i..j` with the single
    /// interval `ins`, keeping everything before `i` and from `j` on.
    fn splice(&mut self, i: usize, j: usize, ins: (u64, u64))
        requires
            i <= j <= old(self)@.len(),
        ensures
            final(self)@ == old(self)@.subrange(0, i as int) + seq![ins]
                + old(self)@.subrange(j as int, old(self)@.len() as int),
    {
        let mut rebuilt: Vec<(u64, u64)> = Vec::new();
        let mut k: usize = 0;
        while k < i
            invariant
                k <= i <= j <= self@.len(),
                self@ == old(self)@,
                rebuilt@ == self@.subrange(0, k as int),
            decreases i - k,
        {
            rebuilt.push(self.ints[k]);
            assert(self@.subrange(0, k as int).push(self@[k as int])
                =~= self@.subrange(0, k as int + 1));
            k = k + 1;
        }
        rebuilt.push(ins);
        assert(rebuilt@ =~= self@.subrange(0, i as int) + seq![ins]
            + self@.subrange(j as int, j as int));
        let mut m: usize = j;
        while m < self.ints.len()
            invariant
                i <= j <= m <= self@.len(),
                self@ == old(self)@,
                rebuilt@ == self@.subrange(0, i as int) + seq![ins]
                    + self@.subrange(j as int, m as int),
            decreases self@.len() - m,
        {
            rebuilt.push(self.ints[m]);
            assert(rebuilt@ =~= self@.subrange(0, i as int) + seq![ins]
                + self@.subrange(j as int, m as int + 1));
            m = m + 1;
        }
        self.ints = rebuilt;
    }

    /// Adds every value of the closed range `[low, high]` to the set.
    ///
    /// The new range is merged with every stored interval it overlaps or
    /// touches, so the invariant survives; afterwards the set contains
    /// exactly its old members plus the values of `[low, high]`.
    pub fn add_range(&mut self, low: u64, high: u64)
        requires
            old(self).wf(),
            low <= high,
        ensures
            final(self).wf(),
            forall|n: int|
                #![trigger ranges_contain(final(self)@, n)]
                #![trigger ranges_contain(old(self)@, n)]
                ranges_contain(final(self)@, n) <==> (ranges_contain(old(self)@, n)
                    || (low <= n <= high)),
    {
        // The search starts one step below `low` (saturating at the domain
        // minimum) so that a stored interval ending exactly at `low - 1` is
        // found and merged.
        let probe: u64 = if low == 0 { 0 } else { low - 1 };
        // One step past `high` (saturating at the domain maximum): a stored
        // interval starting at or below `cap` overlaps or touches the new
        // range.
        let cap: u64 = if high == u64::MAX { u64::MAX } else { high + 1 };

        let ghost s0 = self@;
        let i = self.find(probe);

        let merging = i < self.ints.len() && self.ints[i].0 <= cap;
        let (ins, j): ((u64, u64), usize) = if merging {
            // The new range meets the interval at `i`: fold into one
            // interval every stored interval that `[low, high]` overlaps or
            // touches, scanning forward while that is the case.
            let first = self.ints[i];
            let merge_low: u64 = if low < first.0 { low } else { first.0 };
            let mut merge_high: u64 = if high > first.1 { high } else { first.1 };
            let mut j: usize = i + 1;
            while j < self.ints.len() && self.ints[j].0 <= cap
                invariant
                    i < j <= s0.len(),
                    self@ == s0,
                    wf_ranges(s0),
                    merge_high >= high,
                    merge_high >= s0[j as int - 1].1,
                    merge_high == high || merge_high == s0[j as int - 1].1,
                    forall|k: int| i < k < j ==> (#[trigger] s0[k]).0 <= cap,
                decreases s0.len() - j,
            {
                assert(s0[j as int - 1].1 + 1 < s0[j as int].0);
                assert(s0[j as int].0 <= s0[j as int].1);
                if self.ints[j].1 > merge_high {
                    merge_high = self.ints[j].1;
                }
                j = j + 1;
            }
            assert(j == s0.len() || s0[j as int].0 > cap);
            ((merge_low, merge_high), j)
        } else {
            ((low, high), i)
        };
        self.splice(i, j, ins);

        proof {
            assert(merge_step_ok(s0, ins, i as int, j as int, probe, cap, low, high, merging));
            lemma_merge_step_wf(s0, ins, i as int, j as int, probe, cap, low, high, merging,
                self@);
            lemma_merge_step_members(s0, ins, i as int, j as int, probe, cap, low, high, merging,
                self@);
        }
    }

    /// Whether the set contains the value `n`.
    pub fn contains(&self, n: u64) -> (r: bool)
        requires
            self.wf(),
        ensures
            r == ranges_contain(self@, n as int),
    {
        let i = self.find(n);
        if i < self.ints.len() && self.ints[i].0 <= n {
            assert(self@[i as int].0 <= n as int <= self@[i as int].1);
            true
        } else {
            assert(!ranges_contain(self@, n as int)) by {
                assert forall|k: int|
                    0 <= k < self@.len() implies !((#[trigger] self@[k]).0 <= n as int
                    && n as int <= self@[k].1) by {
                    if i < self@.len() && i < k {
                        assert(self@[i as int].1 + 1 < self@[k].0);
                    }
                }
            }
            false
        }
    }

    /// Adds the single value `n`.
    pub fn add(&mut self, n: u64)
        requires
            old(self).wf(),
        ensures
            final(self).wf(),
            forall|m: int|
                #![trigger ranges_contain(final(self)@, m)]
                #![trigger ranges_contain(old(self)@, m)]
                ranges_contain(final(self)@, m) <==> (ranges_contain(old(self)@, m)
                    || m == n as int),
    {
        self.add_range(n, n);
    }

    /// Adds every member of `other` to `self`, one stored interval at a
    /// time in ascending order; `other` is read only.
    pub fn add_intset(&mut self, other: &IntSet)
        requires
            old(self).wf(),
            other.wf(),
        ensures
            final(self).wf(),
            forall|n: int|
                #![trigger ranges_contain(final(self)@, n)]
                #![trigger ranges_contain(old(self)@, n)]
                ranges_contain(final(self)@, n) <==> (ranges_contain(old(self)@, n)
                    || ranges_contain(other@, n)),
    {
        let mut k: usize = 0;
        while k < other.ints.len()
            invariant
                k <= other@.len(),
                self.wf(),
                other.wf(),
                forall|n: int|
                    ranges_contain(self@, n) <==> (ranges_contain(old(self)@, n)
                        || ranges_contain(other@.subrange(0, k as int), n)),
            decreases other@.len() - k,
        {
            let (low, high) = other.ints[k];
            assert(low == other@[k as int].0 && high == other@[k as int].1);
            assert(low <= high);
            self.add_range(low, high);
            proof {
                let pre = other@.subrange(0, k as int);
                let post = other@.subrange(0, k as int + 1);
                assert forall|n: int|
                    ranges_contain(post, n) <==> (ranges_contain(pre, n)
                        || (low <= n <= high)) by {
                    if ranges_contain(post, n) {
                        let m = choose|m: int|
                            0 <= m < post.len() && (#[trigger] post[m]).0 <= n && n <= post[m].1;
                        if m < k as int {
                            assert(pre[m] == post[m]);
                            assert(pre[m].0 <= n && n <= pre[m].1);
                            assert(ranges_contain(pre, n));
                        } else {
                            assert(post[m] == other@[k as int]);
                        }
                    }
                    if ranges_contain(pre, n) {
                        let m = choose|m: int|
                            0 <= m < pre.len() && (#[trigger] pre[m]).0 <= n && n <= pre[m].1;
                        assert(post[m] == pre[m]);
                        assert(post[m].0 <= n && n <= post[m].1);
                        assert(ranges_contain(post, n));
                    }
                    if low <= n <= high {
                        assert(post[k as int].0 <= n && n <= post[k as int].1);
                        assert(ranges_contain(post, n));
                    }
                }
            }
            k = k + 1;
        }
        proof {
            assert(other@.subrange(0, k as int) =~= other@);
        }
    }

    /// Structural inspector: reports whether the stored intervals, read in
    /// ascending order, are exactly the `(low, high)` pairs of `ranges`.
    pub fn assert_ranges(&self, ranges: &[(u64, u64)]) -> (r: bool)
        ensures
            r <==> self@ == ranges@,
    {
        if self.ints.len() != ranges.len() {
            return false;
        }
        let mut k: usize = 0;
        while k < ranges.len()
            invariant
                k <= ranges@.len(),
                ranges@.len() == self@.len(),
                forall|m: int| 0 <= m < k ==> self@[m] == ranges@[m],
            decreases ranges@.len() - k,
        {
            let a = self.ints[k];
            let b = ranges[k];
            if a.0 != b.0 || a.1 != b.1 {
                assert(self@[k as int] != ranges@[k as int]);
                return false;
            }
            k = k + 1;
        }
        assert(self@ =~= ranges@);
        true
    }
}

} // verus!
