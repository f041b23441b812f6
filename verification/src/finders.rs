use crate::pattern::{matches_wf, pairs_view, regex_find, CompiledRegex};
use crate::search::{
    find_fwd, find_rev, fwd_positions_wf, ints, lemma_find_fwd_wf, lemma_find_rev_wf, memmem_find_all,
    memmem_rfind_all, occurs_at, rev_positions_wf,
};
use core::ops::Range;
use vstd::prelude::*;
use vstd::slice::slice_to_vec;

verus! {

/// Ranges as pairs of mathematical integers.
pub open spec fn ranges_view(v: Seq<Range<usize>>) -> Seq<(int, int)> {
    v.map_values(|r: Range<usize>| (r.start as int, r.end as int))
}

/// Every range lies in a line of `len` bytes.
pub open spec fn ranges_within(r: Seq<(int, int)>, len: int) -> bool {
    forall|k: int| 0 <= k < r.len() ==> 0 <= (#[trigger] r[k]).0 <= r[k].1 <= len
}

/// Something that finds where the delimiters of a line are.
pub trait DelimiterFinder {
    /// The ranges of the delimiters found in `line`, in the order they are found.
    spec fn spec_ranges(&self, line: Seq<u8>) -> Seq<(int, int)>;

    /// Find the delimiters of `line`.
    fn find_ranges(&self, line: &[u8]) -> (r: Vec<Range<usize>>)
        ensures
            ranges_view(r@) == self.spec_ranges(line@),
            ranges_within(ranges_view(r@), line@.len() as int),
    ;
}

/// Occurrences at `ps`, each `d` bytes long, as ranges.
pub open spec fn occurrence_ranges(ps: Seq<int>, d: int) -> Seq<(int, int)> {
    ps.map_values(|p: int| (p, p + d))
}

/// Turn positions into ranges of `d` bytes.
fn positions_to_ranges(ps: &Vec<usize>, d: usize, len: usize) -> (r: Vec<Range<usize>>)
    requires
        forall|k: int| 0 <= k < ps@.len() ==> (#[trigger] ps@[k]) + d <= len,
    ensures
        ranges_view(r@) == occurrence_ranges(ints(ps@), d as int),
        ranges_within(ranges_view(r@), len as int),
{
    let mut out: Vec<Range<usize>> = Vec::new();
    let mut i: usize = 0;
    while i < ps.len()
        invariant
            i <= ps@.len(),
            forall|k: int| 0 <= k < ps@.len() ==> (#[trigger] ps@[k]) + d <= len,
            ranges_view(out@) == occurrence_ranges(ints(ps@.subrange(0, i as int)), d as int),
        decreases ps.len() - i,
    {
        let p = ps[i];
        let ghost before = ranges_view(out@);
        out.push(Range { start: p, end: p + d });
        proof {
            assert(ranges_view(out@) =~= before.push((p as int, p + d)));
            assert(ints(ps@.subrange(0, i + 1)) =~= ints(ps@.subrange(0, i as int)).push(p as int));
            assert(occurrence_ranges(ints(ps@.subrange(0, i + 1)), d as int) =~= occurrence_ranges(
                ints(ps@.subrange(0, i as int)),
                d as int,
            ).push((p as int, p + d)));
        }
        i = i + 1;
    }
    proof {
        assert(ps@.subrange(0, ps@.len() as int) =~= ps@);
    }
    out
}

/// Finds the occurrences of a fixed delimiter, left to right.
pub struct FixedFinder {
    pub pattern: Vec<u8>,
}

impl FixedFinder {
    pub fn new(pattern: &[u8]) -> (f: FixedFinder)
        ensures
            f.pattern@ == pattern@,
    {
        FixedFinder { pattern: slice_to_vec(pattern) }
    }
}

impl DelimiterFinder for FixedFinder {
    open spec fn spec_ranges(&self, line: Seq<u8>) -> Seq<(int, int)> {
        occurrence_ranges(find_fwd(line, self.pattern@, 0), self.pattern@.len() as int)
    }

    fn find_ranges(&self, line: &[u8]) -> (r: Vec<Range<usize>>) {
        let ps = memmem_find_all(line, self.pattern.as_slice());
        proof {
            lemma_find_fwd_wf(line@, self.pattern@, 0);
            assert forall|k: int| 0 <= k < ps@.len() implies (#[trigger] ps@[k]) + self.pattern@.len()
                <= line@.len() by {
                assert(ints(ps@)[k] == ps@[k] as int);
                assert(occurs_at(line@, self.pattern@, ints(ps@)[k]));
            }
        }
        positions_to_ranges(&ps, self.pattern.len(), line.len())
    }
}

/// Finds the occurrences of a fixed delimiter, right to left.
pub struct FixedFinderRev {
    pub pattern: Vec<u8>,
}

impl FixedFinderRev {
    pub fn new(pattern: &[u8]) -> (f: FixedFinderRev)
        ensures
            f.pattern@ == pattern@,
    {
        FixedFinderRev { pattern: slice_to_vec(pattern) }
    }
}

impl DelimiterFinder for FixedFinderRev {
    open spec fn spec_ranges(&self, line: Seq<u8>) -> Seq<(int, int)> {
        occurrence_ranges(find_rev(line, self.pattern@, line.len() as int), self.pattern@.len() as int)
    }

    fn find_ranges(&self, line: &[u8]) -> (r: Vec<Range<usize>>) {
        let ps = memmem_rfind_all(line, self.pattern.as_slice());
        proof {
            lemma_find_rev_wf(line@, self.pattern@, line@.len() as int);
            assert forall|k: int| 0 <= k < ps@.len() implies (#[trigger] ps@[k]) + self.pattern@.len()
                <= line@.len() by {
                assert(ints(ps@)[k] == ps@[k] as int);
                assert(occurs_at(line@, self.pattern@, ints(ps@)[k]));
            }
        }
        positions_to_ranges(&ps, self.pattern.len(), line.len())
    }
}

/// The last index of the run of back-to-back occurrences (each `d` bytes
/// after the previous one) that starts at `k`.
pub open spec fn run_end_fwd(ps: Seq<int>, d: int, k: int) -> int
    decreases ps.len() - k,
{
    if 0 <= k && k + 1 < ps.len() && ps[k + 1] == ps[k] + d {
        run_end_fwd(ps, d, k + 1)
    } else {
        k
    }
}

pub proof fn lemma_run_end_fwd(ps: Seq<int>, d: int, k: int)
    requires
        0 <= k < ps.len(),
    ensures
        k <= run_end_fwd(ps, d, k) < ps.len(),
        forall|j: int| k <= j < run_end_fwd(ps, d, k) ==> #[trigger] ps[j + 1] == ps[j] + d,
        run_end_fwd(ps, d, k) + 1 < ps.len() ==> ps[run_end_fwd(ps, d, k) + 1] != ps[run_end_fwd(
            ps,
            d,
            k,
        )] + d,
    decreases ps.len() - k,
{
    if k + 1 < ps.len() && ps[k + 1] == ps[k] + d {
        lemma_run_end_fwd(ps, d, k + 1);
    }
}

/// Greedy delimiters, left to right: each run of back-to-back occurrences,
/// from index `k` on, is one range.
pub open spec fn greedy_fwd(ps: Seq<int>, d: int, k: int) -> Seq<(int, int)>
    decreases ps.len() - k,
{
    if k < 0 || k >= ps.len() {
        Seq::empty()
    } else {
        let e = run_end_fwd(ps, d, k);
        proof {
            lemma_run_end_fwd(ps, d, k);
        }
        seq![(ps[k], ps[e] + d)] + greedy_fwd(ps, d, e + 1)
    }
}

/// The first index of the run of back-to-back occurrences, found right to
/// left (each `d` bytes before the previous one), that starts at `k`.
pub open spec fn run_end_rev(ps: Seq<int>, d: int, k: int) -> int
    decreases ps.len() - k,
{
    if 0 <= k && k + 1 < ps.len() && ps[k] >= d && ps[k + 1] == ps[k] - d {
        run_end_rev(ps, d, k + 1)
    } else {
        k
    }
}

pub proof fn lemma_run_end_rev(ps: Seq<int>, d: int, k: int)
    requires
        0 <= k < ps.len(),
    ensures
        k <= run_end_rev(ps, d, k) < ps.len(),
        forall|j: int| k <= j < run_end_rev(ps, d, k) ==> #[trigger] ps[j] >= d,
        forall|j: int| k <= j < run_end_rev(ps, d, k) ==> #[trigger] ps[j + 1] == ps[j] - d,
        run_end_rev(ps, d, k) + 1 < ps.len() ==> !(ps[run_end_rev(ps, d, k)] >= d && ps[run_end_rev(
            ps,
            d,
            k,
        ) + 1] == ps[run_end_rev(ps, d, k)] - d),
    decreases ps.len() - k,
{
    if k + 1 < ps.len() && ps[k] >= d && ps[k + 1] == ps[k] - d {
        lemma_run_end_rev(ps, d, k + 1);
        assert forall|j: int| k <= j < run_end_rev(ps, d, k) implies #[trigger] ps[j] >= d by {
            if j > k {
                assert(ps[j] >= d);
            }
        }
        assert forall|j: int| k <= j < run_end_rev(ps, d, k) implies #[trigger] ps[j + 1] == ps[j] - d by {
            if j > k {
                assert(ps[j + 1] == ps[j] - d);
            }
        }
    } else {
        assert(run_end_rev(ps, d, k) == k);
    }
}

/// Greedy delimiters, right to left: each run of back-to-back occurrences,
/// from index `k` on, is one range.
pub open spec fn greedy_rev(ps: Seq<int>, d: int, k: int) -> Seq<(int, int)>
    decreases ps.len() - k,
{
    if k < 0 || k >= ps.len() {
        Seq::empty()
    } else {
        let e = run_end_rev(ps, d, k);
        proof {
            lemma_run_end_rev(ps, d, k);
        }
        seq![(ps[e], ps[k] + d)] + greedy_rev(ps, d, e + 1)
    }
}

/// Merge runs of back-to-back occurrences (left to right) into ranges.
fn merge_runs_fwd(ps: &Vec<usize>, d: usize, len: usize) -> (r: Vec<Range<usize>>)
    requires
        forall|k: int| 0 <= k < ps@.len() ==> (#[trigger] ps@[k]) + d <= len,
    ensures
        ranges_view(r@) == greedy_fwd(ints(ps@), d as int, 0),
        ranges_within(ranges_view(r@), len as int),
{
    let ghost s = ints(ps@);
    let mut out: Vec<Range<usize>> = Vec::new();
    let mut i: usize = 0;
    let n = ps.len();
    proof {
        assert(ranges_view(out@) + greedy_fwd(s, d as int, 0) =~= greedy_fwd(s, d as int, 0));
    }
    while i < n
        invariant
            n == ps@.len(),
            s == ints(ps@),
            i <= n,
            forall|k: int| 0 <= k < ps@.len() ==> (#[trigger] ps@[k]) + d <= len,
            greedy_fwd(s, d as int, 0) == ranges_view(out@) + greedy_fwd(s, d as int, i as int),
            ranges_within(ranges_view(out@), len as int),
        decreases n - i,
    {
        let start = ps[i];
        let mut j: usize = i;
        proof {
            lemma_run_end_fwd(s, d as int, i as int);
        }
        while j + 1 < n && ps[j + 1] == ps[j] + d
            invariant
                n == ps@.len(),
                s == ints(ps@),
                i <= j < n,
                forall|k: int| 0 <= k < ps@.len() ==> (#[trigger] ps@[k]) + d <= len,
                run_end_fwd(s, d as int, i as int) == run_end_fwd(s, d as int, j as int),
                ps@[i as int] <= ps@[j as int],
            decreases n - j,
        {
            proof {
                assert(s[j as int] == ps@[j as int] as int);
                assert(s[j + 1] == ps@[j + 1] as int);
            }
            j = j + 1;
        }
        proof {
            assert(s[j as int] == ps@[j as int] as int);
            if j + 1 < n {
                assert(s[j + 1] == ps@[j + 1] as int);
            }
            assert(run_end_fwd(s, d as int, j as int) == j);
            assert(s[i as int] == start as int);
        }
        let ghost before = out@;
        proof {
            assert(ps@[j as int] + d <= len);
        }
        out.push(Range { start, end: ps[j] + d });
        proof {
            assert forall|k: int| 0 <= k < ranges_view(out@).len() implies 0 <= (
            #[trigger] ranges_view(out@)[k]).0 <= ranges_view(out@)[k].1 <= len by {
                if k < before.len() {
                    assert(ranges_view(out@)[k] == ranges_view(before)[k]);
                }
            }
            assert(ranges_view(out@) =~= ranges_view(before) + seq![(s[i as int], s[j as int] + d)]);
            assert(greedy_fwd(s, d as int, i as int) == seq![(s[i as int], s[j as int] + d)] + greedy_fwd(
                s,
                d as int,
                j + 1,
            ));
            assert(ranges_view(out@) + greedy_fwd(s, d as int, j + 1) =~= ranges_view(before)
                + greedy_fwd(s, d as int, i as int));
        }
        i = j + 1;
    }
    proof {
        assert(greedy_fwd(s, d as int, i as int) =~= Seq::<(int, int)>::empty());
        assert(ranges_view(out@) + Seq::<(int, int)>::empty() =~= ranges_view(out@));
    }
    out
}

/// Merge runs of back-to-back occurrences (right to left) into ranges.
fn merge_runs_rev(ps: &Vec<usize>, d: usize, len: usize) -> (r: Vec<Range<usize>>)
    requires
        forall|k: int| 0 <= k < ps@.len() ==> (#[trigger] ps@[k]) + d <= len,
    ensures
        ranges_view(r@) == greedy_rev(ints(ps@), d as int, 0),
        ranges_within(ranges_view(r@), len as int),
{
    let ghost s = ints(ps@);
    let mut out: Vec<Range<usize>> = Vec::new();
    let mut i: usize = 0;
    let n = ps.len();
    proof {
        assert(ranges_view(out@) + greedy_rev(s, d as int, 0) =~= greedy_rev(s, d as int, 0));
    }
    while i < n
        invariant
            n == ps@.len(),
            s == ints(ps@),
            i <= n,
            forall|k: int| 0 <= k < ps@.len() ==> (#[trigger] ps@[k]) + d <= len,
            greedy_rev(s, d as int, 0) == ranges_view(out@) + greedy_rev(s, d as int, i as int),
            ranges_within(ranges_view(out@), len as int),
        decreases n - i,
    {
        let end = ps[i] + d;
        let mut j: usize = i;
        proof {
            lemma_run_end_rev(s, d as int, i as int);
        }
        while j + 1 < n && ps[j] >= d && ps[j + 1] == ps[j] - d
            invariant
                n == ps@.len(),
                s == ints(ps@),
                i <= j < n,
                forall|k: int| 0 <= k < ps@.len() ==> (#[trigger] ps@[k]) + d <= len,
                run_end_rev(s, d as int, i as int) == run_end_rev(s, d as int, j as int),
                ps@[j as int] <= ps@[i as int],
            decreases n - j,
        {
            proof {
                assert(s[j as int] == ps@[j as int] as int);
                assert(s[j + 1] == ps@[j + 1] as int);
            }
            j = j + 1;
        }
        proof {
            assert(s[j as int] == ps@[j as int] as int);
            if j + 1 < n {
                assert(s[j + 1] == ps@[j + 1] as int);
            }
            assert(run_end_rev(s, d as int, j as int) == j);
            assert(s[i as int] == ps@[i as int] as int);
        }
        let ghost before = out@;
        proof {
            assert(ps@[j as int] <= ps@[i as int]);
            assert(ps@[i as int] + d <= len);
            assert(end == ps@[i as int] + d);
        }
        out.push(Range { start: ps[j], end });
        proof {
            assert forall|k: int| 0 <= k < ranges_view(out@).len() implies 0 <= (
            #[trigger] ranges_view(out@)[k]).0 <= ranges_view(out@)[k].1 <= len by {
                if k < before.len() {
                    assert(ranges_view(out@)[k] == ranges_view(before)[k]);
                }
            }
            assert(ranges_view(out@) =~= ranges_view(before) + seq![(s[j as int], s[i as int] + d)]);
            assert(greedy_rev(s, d as int, i as int) == seq![(s[j as int], s[i as int] + d)] + greedy_rev(
                s,
                d as int,
                j + 1,
            ));
            assert(ranges_view(out@) + greedy_rev(s, d as int, j + 1) =~= ranges_view(before)
                + greedy_rev(s, d as int, i as int));
        }
        i = j + 1;
    }
    proof {
        assert(greedy_rev(s, d as int, i as int) =~= Seq::<(int, int)>::empty());
        assert(ranges_view(out@) + Seq::<(int, int)>::empty() =~= ranges_view(out@));
    }
    out
}

/// Finds runs of consecutive fixed delimiters, left to right, each run as
/// one range.
pub struct FixedGreedyFinder {
    pub pattern: Vec<u8>,
}

impl FixedGreedyFinder {
    pub fn new(pattern: &[u8]) -> (f: FixedGreedyFinder)
        ensures
            f.pattern@ == pattern@,
    {
        FixedGreedyFinder { pattern: slice_to_vec(pattern) }
    }
}

impl DelimiterFinder for FixedGreedyFinder {
    open spec fn spec_ranges(&self, line: Seq<u8>) -> Seq<(int, int)> {
        greedy_fwd(find_fwd(line, self.pattern@, 0), self.pattern@.len() as int, 0)
    }

    fn find_ranges(&self, line: &[u8]) -> (r: Vec<Range<usize>>) {
        let ps = memmem_find_all(line, self.pattern.as_slice());
        proof {
            lemma_find_fwd_wf(line@, self.pattern@, 0);
            assert forall|k: int| 0 <= k < ps@.len() implies (#[trigger] ps@[k]) + self.pattern@.len()
                <= line@.len() by {
                assert(ints(ps@)[k] == ps@[k] as int);
                assert(occurs_at(line@, self.pattern@, ints(ps@)[k]));
            }
        }
        merge_runs_fwd(&ps, self.pattern.len(), line.len())
    }
}

/// Finds runs of consecutive fixed delimiters, right to left, each run as
/// one range.
pub struct FixedGreedyFinderRev {
    pub pattern: Vec<u8>,
}

impl FixedGreedyFinderRev {
    pub fn new(pattern: &[u8]) -> (f: FixedGreedyFinderRev)
        ensures
            f.pattern@ == pattern@,
    {
        FixedGreedyFinderRev { pattern: slice_to_vec(pattern) }
    }
}

impl DelimiterFinder for FixedGreedyFinderRev {
    open spec fn spec_ranges(&self, line: Seq<u8>) -> Seq<(int, int)> {
        greedy_rev(find_rev(line, self.pattern@, line.len() as int), self.pattern@.len() as int, 0)
    }

    fn find_ranges(&self, line: &[u8]) -> (r: Vec<Range<usize>>) {
        let ps = memmem_rfind_all(line, self.pattern.as_slice());
        proof {
            lemma_find_rev_wf(line@, self.pattern@, line@.len() as int);
            assert forall|k: int| 0 <= k < ps@.len() implies (#[trigger] ps@[k]) + self.pattern@.len()
                <= line@.len() by {
                assert(ints(ps@)[k] == ps@[k] as int);
                assert(occurs_at(line@, self.pattern@, ints(ps@)[k]));
            }
        }
        merge_runs_rev(&ps, self.pattern.len(), line.len())
    }
}

/// The matches of a regular expression, with the empty matches at the very
/// start or end of the line left out.
pub open spec fn drop_edge_empties(ms: Seq<(int, int)>, len: int) -> Seq<(int, int)>
    decreases ms.len(),
{
    if ms.len() == 0 {
        Seq::empty()
    } else {
        let m = ms.last();
        let rest = drop_edge_empties(ms.drop_last(), len);
        if (m.0 == 0 && m.1 == 0) || (m.0 == len && m.1 == len) {
            rest
        } else {
            rest.push(m)
        }
    }
}

/// Finds the matches of a regular expression. With `trim_empty`, empty
/// matches at the very start or end of the line are left out (so that
/// cutting between characters does not give empty first and last fields).
pub struct RegexFinder {
    pub regex: CompiledRegex,
    pub trim_empty: bool,
}

impl RegexFinder {
    pub fn new(regex: CompiledRegex) -> (f: RegexFinder)
        ensures
            f.regex@ == regex@,
            !f.trim_empty,
    {
        Self::new_with_trim(regex, false)
    }

    pub fn new_with_trim(regex: CompiledRegex, trim_empty: bool) -> (f: RegexFinder)
        ensures
            f.regex@ == regex@,
            f.trim_empty == trim_empty,
    {
        RegexFinder { regex, trim_empty }
    }
}

impl DelimiterFinder for RegexFinder {
    open spec fn spec_ranges(&self, line: Seq<u8>) -> Seq<(int, int)> {
        if self.trim_empty {
            drop_edge_empties(regex_find(self.regex@, line), line.len() as int)
        } else {
            regex_find(self.regex@, line)
        }
    }

    fn find_ranges(&self, line: &[u8]) -> (r: Vec<Range<usize>>) {
        let ms = self.regex.find_all(line);
        let ghost mv = pairs_view(ms@);
        let len = line.len();
        let mut out: Vec<Range<usize>> = Vec::new();
        let mut i: usize = 0;
        while i < ms.len()
            invariant
                i <= ms@.len(),
                mv == pairs_view(ms@),
                len == line@.len(),
                matches_wf(mv, len as int),
                ranges_view(out@) == if self.trim_empty {
                    drop_edge_empties(mv.subrange(0, i as int), len as int)
                } else {
                    mv.subrange(0, i as int)
                },
                ranges_within(ranges_view(out@), len as int),
            decreases ms.len() - i,
        {
            let (s, e) = ms[i];
            proof {
                assert(mv[i as int] == (s as int, e as int));
                assert(mv.subrange(0, i + 1).drop_last() =~= mv.subrange(0, i as int));
                assert(mv.subrange(0, i + 1).last() == mv[i as int]);
            }
            let ghost before = out@;
            if !(self.trim_empty && ((s == 0 && e == 0) || (s == len && e == len))) {
                out.push(Range { start: s, end: e });
                proof {
                    assert(ranges_view(out@) =~= ranges_view(before).push((s as int, e as int)));
                    if !self.trim_empty {
                        assert(mv.subrange(0, i + 1) =~= mv.subrange(0, i as int).push(mv[i as int]));
                    }
                }
            }
            i = i + 1;
        }
        proof {
            assert(mv.subrange(0, mv.len() as int) =~= mv);
        }
        out
    }
}

} // verus!
