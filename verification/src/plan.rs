use crate::finders::{
    ranges_view, ranges_within, DelimiterFinder, FixedFinder, FixedFinderRev, FixedGreedyFinder,
    FixedGreedyFinderRev, RegexFinder,
};
use crate::options::{BoundsType, Opt};
use crate::pattern::CompiledRegex;
use crate::side::{ErrorView, Side, TucError};
use crate::userbounds::{BofView, BoundOrFiller, UserBounds, UserBoundsView};
use crate::userboundslist::bofs_view;
use core::ops::Range;
use vstd::prelude::*;

verus! {

/// How a plan finds the fields of a line.
#[derive(Debug, Clone, Copy, PartialEq, Eq, Structural)]
pub enum ExtractMode {
    /// Split the whole line (the number of fields is needed).
    EveryField,
    /// Find the positive fields asked for, left to right.
    PosIndices,
    /// Find the negative fields asked for, right to left.
    NegIndices,
    /// Both of the above.
    BothIndices,
}

/// The range that marks a field as not found.
pub open spec fn no_field() -> (int, int) {
    (usize::MAX as int, usize::MAX as int)
}

/// The fields of a line of `len` bytes, left to right, given the ranges of
/// its delimiters found left to right.
pub open spec fn fields_fwd(rs: Seq<(int, int)>, len: int) -> Seq<(int, int)> {
    Seq::new(
        (rs.len() + 1) as nat,
        |k: int|
            (if k == 0 {
                0
            } else {
                rs[k - 1].1
            }, if k < rs.len() {
                rs[k].0
            } else {
                len
            }),
    )
}

/// The fields of a line of `len` bytes, right to left (0 is the last field),
/// given the ranges of its delimiters found right to left.
pub open spec fn fields_rev(rs: Seq<(int, int)>, len: int) -> Seq<(int, int)> {
    Seq::new(
        (rs.len() + 1) as nat,
        |k: int|
            (if k < rs.len() {
                rs[k].1
            } else {
                0
            }, if k == 0 {
                len
            } else {
                rs[k - 1].0
            }),
    )
}

/// Each index is smaller than the next one.
pub open spec fn strictly_increasing(s: Seq<usize>) -> bool {
    forall|i: int, j: int| 0 <= i < j < s.len() ==> s[i] < s[j]
}

/// `m` is one of the indices.
pub open spec fn in_idx(idx: Seq<usize>, m: int) -> bool {
    exists|k: int| 0 <= k < idx.len() && idx[k] == m
}

/// The position in `idx`, from `k` on, of the first index not below `n`.
pub open spec fn first_oob(idx: Seq<usize>, n: int, k: int) -> Option<int>
    decreases idx.len() - k,
{
    if k < 0 || k >= idx.len() {
        None
    } else if idx[k] >= n {
        Some(k)
    } else {
        first_oob(idx, n, k + 1)
    }
}

/// The stored fields after looking up the fields `idx` (increasing) among
/// `fs`: each index found gets its field; from the first index that is not
/// found on, every stored field is marked as not found; the others stay.
pub open spec fn spec_fill_fields(old_f: Seq<(int, int)>, idx: Seq<usize>, fs: Seq<(int, int)>) -> Seq<
    (int, int),
> {
    Seq::new(
        old_f.len(),
        |m: int|
            if first_oob(idx, fs.len() as int, 0) is Some && m >= idx[first_oob(
                idx,
                fs.len() as int,
                0,
            ).unwrap()] {
                no_field()
            } else if in_idx(idx, m) {
                fs[m]
            } else {
                old_f[m]
            },
    )
}

/// The error given when the field `idx[k]` is not found.
pub open spec fn oob_error(idx: Seq<usize>, n: int, negative: bool) -> Option<ErrorView> {
    match first_oob(idx, n, 0) {
        Some(k) => Some(ErrorView::OutOfBounds(Side { value: idx[k], is_negative: negative })),
        None => None,
    }
}

/// A plan to find the fields that a list of bounds needs.
pub struct FieldPlan<F: DelimiterFinder, R: DelimiterFinder> {
    /// The positive fields needed (0-indexed), increasing.
    pub positive_indices: Vec<usize>,
    /// The negative fields needed (0 is the last field), increasing.
    pub negative_indices: Vec<usize>,
    /// Where the positive fields are in the current line.
    pub positive_fields: Vec<Range<usize>>,
    /// Where the negative fields are in the current line.
    pub negative_fields: Vec<Range<usize>>,
    /// How the fields are found.
    pub extract_func: ExtractMode,
    pub finder: F,
    pub finder_rev: R,
}

impl<F: DelimiterFinder, R: DelimiterFinder> FieldPlan<F, R> {
    /// The positive fields of `line`, as found by this plan's finder.
    pub open spec fn fwd_fields(&self, line: Seq<u8>) -> Seq<(int, int)> {
        fields_fwd(self.finder.spec_ranges(line), line.len() as int)
    }

    /// The negative fields of `line`, as found by this plan's reverse finder.
    pub open spec fn rev_fields(&self, line: Seq<u8>) -> Seq<(int, int)> {
        fields_rev(self.finder_rev.spec_ranges(line), line.len() as int)
    }

    /// The indices are increasing and have room in the stored fields.
    pub open spec fn pos_ready(&self) -> bool {
        &&& strictly_increasing(self.positive_indices@)
        &&& forall|k: int|
            0 <= k < self.positive_indices@.len() ==> #[trigger] self.positive_indices@[k]
                < self.positive_fields@.len()
    }

    pub open spec fn neg_ready(&self) -> bool {
        &&& strictly_increasing(self.negative_indices@)
        &&& forall|k: int|
            0 <= k < self.negative_indices@.len() ==> #[trigger] self.negative_indices@[k]
                < self.negative_fields@.len()
    }

    /// Only the positive fields changed.
    pub open spec fn same_but_pos_fields(&self, other: &Self) -> bool {
        &&& self.positive_indices@ == other.positive_indices@
        &&& self.negative_indices@ == other.negative_indices@
        &&& self.negative_fields@ == other.negative_fields@
        &&& self.extract_func == other.extract_func
        &&& self.finder == other.finder
        &&& self.finder_rev == other.finder_rev
    }
}

/// Mark the stored fields from `from` on as not found.
fn mark_not_found(v: &mut Vec<Range<usize>>, from: usize)
    requires
        from <= old(v)@.len(),
    ensures
        final(v)@.len() == old(v)@.len(),
        forall|m: int|
            0 <= m < final(v)@.len() ==> (#[trigger] ranges_view(final(v)@)[m]) == if m >= from {
                no_field()
            } else {
                ranges_view(old(v)@)[m]
            },
{
    let ghost start = v@;
    let mut k = from;
    while k < v.len()
        invariant
            from <= k <= v@.len(),
            v@.len() == start.len(),
            forall|m: int|
                0 <= m < v@.len() ==> (#[trigger] ranges_view(v@)[m]) == if from <= m < k {
                    no_field()
                } else {
                    ranges_view(start)[m]
                },
        decreases v@.len() - k,
    {
        let ghost prev = v@;
        v.set(k, Range { start: usize::MAX, end: usize::MAX });
        proof {
            assert forall|m: int| 0 <= m < v@.len() implies (#[trigger] ranges_view(v@)[m]) == if from
                <= m < k + 1 {
                no_field()
            } else {
                ranges_view(start)[m]
            } by {
                if m != k {
                    assert(v@[m] == prev[m]);
                    assert(ranges_view(prev)[m] == ranges_view(v@)[m]);
                }
            }
        }
        k = k + 1;
    }
}

proof fn lemma_first_oob_some(idx: Seq<usize>, n: int, k: int)
    requires
        0 <= k,
    ensures
        first_oob(idx, n, k) matches Some(j) ==> k <= j < idx.len() && idx[j] >= n,
    decreases idx.len() - k,
{
    if k < idx.len() && idx[k] < n {
        lemma_first_oob_some(idx, n, k + 1);
    }
}

proof fn lemma_in_prefix(idx: Seq<usize>, i: int, m: int)
    requires
        0 <= i <= idx.len(),
    ensures
        in_idx(idx.subrange(0, i), m) <==> (exists|k: int| 0 <= k < i && #[trigger] idx[k] == m),
{
    if in_idx(idx.subrange(0, i), m) {
        let k = choose|k: int| 0 <= k < idx.subrange(0, i).len() && #[trigger] idx.subrange(0, i)[k] == m;
        assert(idx[k] == m);
    }
    if exists|k: int| 0 <= k < i && #[trigger] idx[k] == m {
        let k = choose|k: int| 0 <= k < i && #[trigger] idx[k] == m;
        assert(idx.subrange(0, i)[k] == m);
    }
}

proof fn lemma_first_oob_none(idx: Seq<usize>, n: int, k: int)
    requires
        0 <= k <= idx.len(),
        forall|j: int| k <= j < idx.len() ==> idx[j] < n,
    ensures
        first_oob(idx, n, k) is None,
    decreases idx.len() - k,
{
    if k < idx.len() {
        lemma_first_oob_none(idx, n, k + 1);
    }
}

proof fn lemma_first_oob_skip(idx: Seq<usize>, n: int, k: int)
    requires
        0 <= k <= idx.len(),
        forall|j: int| 0 <= j < k ==> idx[j] < n,
    ensures
        first_oob(idx, n, 0) == first_oob(idx, n, k),
    decreases k,
{
    if k > 0 {
        lemma_first_oob_skip(idx, n, k - 1);
    }
}

/// Store the fields `idx` (increasing) found among the ranges of `line`,
/// read in the direction of `reverse`. Gives the position in `idx` of the
/// first field that is not there, if any.
fn fill_fields(
    stored: &mut Vec<Range<usize>>,
    idx: &Vec<usize>,
    rs: &Vec<Range<usize>>,
    len: usize,
    reverse: bool,
) -> (r: Option<usize>)
    requires
        strictly_increasing(idx@),
        forall|k: int| 0 <= k < idx@.len() ==> #[trigger] idx@[k] < old(stored)@.len(),
        ranges_within(ranges_view(rs@), len as int),
    ensures
        match r {
            Some(k) => first_oob(idx@, rs@.len() + 1int, 0) == Some(k as int),
            None => first_oob(idx@, rs@.len() + 1int, 0) is None,
        },
        ranges_view(final(stored)@) == spec_fill_fields(
            ranges_view(old(stored)@),
            idx@,
            if reverse {
                fields_rev(ranges_view(rs@), len as int)
            } else {
                fields_fwd(ranges_view(rs@), len as int)
            },
        ),
{
    let ghost fs = if reverse {
        fields_rev(ranges_view(rs@), len as int)
    } else {
        fields_fwd(ranges_view(rs@), len as int)
    };
    let ghost old_f = ranges_view(stored@);
    let n = rs.len();
    let mut i: usize = 0;
    while i < idx.len()
        invariant
            i <= idx@.len(),
            n == rs@.len(),
            fs.len() == n + 1,
            fs == if reverse {
                fields_rev(ranges_view(rs@), len as int)
            } else {
                fields_fwd(ranges_view(rs@), len as int)
            },
            strictly_increasing(idx@),
            forall|k: int| 0 <= k < idx@.len() ==> #[trigger] idx@[k] < stored@.len(),
            stored@.len() == old_f.len(),
            old_f == ranges_view(old(stored)@),
            forall|j: int| 0 <= j < i ==> idx@[j] <= n,
            forall|m: int|
                0 <= m < stored@.len() ==> (#[trigger] ranges_view(stored@)[m]) == if in_idx(
                    idx@.subrange(0, i as int),
                    m,
                ) {
                    fs[m]
                } else {
                    old_f[m]
                },
        decreases idx.len() - i,
    {
        let d = idx[i];
        if d > n {
            proof {
                lemma_first_oob_skip(idx@, n + 1, i as int);
            }
            let ghost pre = ranges_view(stored@);
            mark_not_found(&mut *stored, d);
            proof {
                let f = first_oob(idx@, n + 1, 0);
                assert(f == Some(i as int));
                assert forall|m: int| 0 <= m < stored@.len() implies (#[trigger] ranges_view(stored@)[m])
                    == spec_fill_fields(old_f, idx@, fs)[m] by {
                    lemma_in_prefix(idx@, i as int, m);
                    if m < d {
                        assert(ranges_view(stored@)[m] == pre[m]);
                        if in_idx(idx@, m) {
                            let k = choose|k: int| 0 <= k < idx@.len() && #[trigger] idx@[k] == m;
                            if k > i {
                                assert(idx@[i as int] < idx@[k]);
                            }
                            assert(k != i);
                        } else {
                            if exists|k: int| 0 <= k < i && #[trigger] idx@[k] == m {
                                let k = choose|k: int| 0 <= k < i && #[trigger] idx@[k] == m;
                                assert(in_idx(idx@, m));
                            }
                        }
                    }
                }
                assert(ranges_view(stored@) =~= spec_fill_fields(old_f, idx@, fs));
            }
            return Some(i);
        }
        let f_start: usize = if reverse {
            if d < n {
                rs[d].end
            } else {
                0
            }
        } else {
            if d == 0 {
                0
            } else {
                rs[d - 1].end
            }
        };
        let f_end: usize = if reverse {
            if d == 0 {
                len
            } else {
                rs[d - 1].start
            }
        } else {
            if d < n {
                rs[d].start
            } else {
                len
            }
        };
        let ghost before = ranges_view(stored@);
        stored.set(d, Range { start: f_start, end: f_end });
        proof {
            if d < n {
                assert(ranges_view(rs@)[d as int] == (rs@[d as int].start as int, rs@[d as int].end as int));
            }
            if d > 0 {
                assert(ranges_view(rs@)[d - 1] == (rs@[d - 1].start as int, rs@[d - 1].end as int));
            }
            assert((f_start as int, f_end as int) == fs[d as int]);
            assert forall|m: int| 0 <= m < stored@.len() implies (#[trigger] ranges_view(stored@)[m])
                == if in_idx(idx@.subrange(0, i + 1), m) {
                fs[m]
            } else {
                old_f[m]
            } by {
                lemma_in_prefix(idx@, i as int, m);
                lemma_in_prefix(idx@, i + 1, m);
                if m == d {
                    assert(idx@[i as int] == m);
                } else {
                    assert(ranges_view(stored@)[m] == before[m]);
                    if exists|k: int| 0 <= k < i + 1 && #[trigger] idx@[k] == m {
                        let k = choose|k: int| 0 <= k < i + 1 && #[trigger] idx@[k] == m;
                        assert(k != i);
                    }
                }
            }
        }
        i = i + 1;
    }
    proof {
        lemma_first_oob_none(idx@, n + 1, 0);
        assert(idx@.subrange(0, idx@.len() as int) =~= idx@);
        assert(ranges_view(stored@) =~= spec_fill_fields(old_f, idx@, fs));
    }
    None
}

/// Find the positive fields that the plan needs in `line`, left to right.
/// When a field is not there, it and every later stored field are marked as
/// not found, and the error names it. An empty line changes nothing.
pub fn extract_fields_using_pos_indices<F: DelimiterFinder, R: DelimiterFinder>(
    line: &[u8],
    plan: &mut FieldPlan<F, R>,
) -> (r: Result<Option<usize>, TucError>)
    requires
        old(plan).pos_ready(),
    ensures
        final(plan).same_but_pos_fields(old(plan)),
        line@.len() == 0 ==> r == Ok::<Option<usize>, TucError>(None) && final(plan).positive_fields@
            == old(plan).positive_fields@,
        line@.len() > 0 ==> {
            &&& ranges_view(final(plan).positive_fields@) == spec_fill_fields(
                ranges_view(old(plan).positive_fields@),
                old(plan).positive_indices@,
                old(plan).fwd_fields(line@),
            )
            &&& match r {
                Ok(v) => v is None && oob_error(
                    old(plan).positive_indices@,
                    old(plan).fwd_fields(line@).len() as int,
                    false,
                ) is None,
                Err(e) => oob_error(
                    old(plan).positive_indices@,
                    old(plan).fwd_fields(line@).len() as int,
                    false,
                ) == Some(e@),
            }
        },
{
    if line.len() == 0 {
        return Ok(None);
    }
    let rs = plan.finder.find_ranges(line);
    let mut pf = Vec::new();
    core::mem::swap(&mut pf, &mut plan.positive_fields);
    let res = fill_fields(&mut pf, &plan.positive_indices, &rs, line.len(), false);
    core::mem::swap(&mut pf, &mut plan.positive_fields);
    proof {
        lemma_first_oob_some(plan.positive_indices@, rs@.len() + 1int, 0);
    }
    match res {
        None => Ok(None),
        Some(k) => Err(TucError::OutOfBounds(Side::with_pos_value(plan.positive_indices[k]))),
    }
}

/// Find the negative fields that the plan needs in `line`, right to left.
/// When a field is not there, it and every later stored field are marked as
/// not found, and the error names it. An empty line changes nothing.
pub fn extract_fields_using_negative_indices<F: DelimiterFinder, R: DelimiterFinder>(
    line: &[u8],
    plan: &mut FieldPlan<F, R>,
) -> (r: Result<Option<usize>, TucError>)
    requires
        old(plan).neg_ready(),
    ensures
        final(plan).positive_indices@ == old(plan).positive_indices@,
        final(plan).negative_indices@ == old(plan).negative_indices@,
        final(plan).positive_fields@ == old(plan).positive_fields@,
        final(plan).extract_func == old(plan).extract_func,
        final(plan).finder == old(plan).finder,
        final(plan).finder_rev == old(plan).finder_rev,
        line@.len() == 0 ==> r == Ok::<Option<usize>, TucError>(None) && final(plan).negative_fields@
            == old(plan).negative_fields@,
        line@.len() > 0 ==> {
            &&& ranges_view(final(plan).negative_fields@) == spec_fill_fields(
                ranges_view(old(plan).negative_fields@),
                old(plan).negative_indices@,
                old(plan).rev_fields(line@),
            )
            &&& match r {
                Ok(v) => v is None && oob_error(
                    old(plan).negative_indices@,
                    old(plan).rev_fields(line@).len() as int,
                    true,
                ) is None,
                Err(e) => oob_error(
                    old(plan).negative_indices@,
                    old(plan).rev_fields(line@).len() as int,
                    true,
                ) == Some(e@),
            }
        },
{
    if line.len() == 0 {
        return Ok(None);
    }
    let rs = plan.finder_rev.find_ranges(line);
    let mut nf = Vec::new();
    core::mem::swap(&mut nf, &mut plan.negative_fields);
    let res = fill_fields(&mut nf, &plan.negative_indices, &rs, line.len(), true);
    core::mem::swap(&mut nf, &mut plan.negative_fields);
    proof {
        lemma_first_oob_some(plan.negative_indices@, rs@.len() + 1int, 0);
    }
    match res {
        None => Ok(None),
        Some(k) => Err(TucError::OutOfBounds(Side::with_neg_value(plan.negative_indices[k]))),
    }
}

/// The ranges in the opposite order.
pub open spec fn reverse_ranges(rs: Seq<(int, int)>) -> Seq<(int, int)> {
    Seq::new(rs.len(), |k: int| rs[rs.len() - 1 - k])
}

/// Find every field of `line`, left to right, and from them the negative
/// fields that the plan needs. The positive fields stored are exactly the
/// fields of the line. Gives the number of fields; the error names the first
/// positive field asked for that is not there, else the first negative one.
/// An empty line changes nothing and has no field.
pub fn extract_every_field<F: DelimiterFinder, R: DelimiterFinder>(
    line: &[u8],
    plan: &mut FieldPlan<F, R>,
) -> (r: Result<Option<usize>, TucError>)
    requires
        strictly_increasing(old(plan).positive_indices@),
        old(plan).neg_ready(),
    ensures
        final(plan).positive_indices@ == old(plan).positive_indices@,
        final(plan).negative_indices@ == old(plan).negative_indices@,
        final(plan).extract_func == old(plan).extract_func,
        final(plan).finder == old(plan).finder,
        final(plan).finder_rev == old(plan).finder_rev,
        line@.len() == 0 ==> r == Ok::<Option<usize>, TucError>(Some(0usize))
            && final(plan).positive_fields@ == old(plan).positive_fields@
            && final(plan).negative_fields@ == old(plan).negative_fields@,
        line@.len() > 0 ==> {
            let fs = old(plan).fwd_fields(line@);
            &&& ranges_view(final(plan).positive_fields@) == fs
            &&& ranges_view(final(plan).negative_fields@) == spec_fill_fields(
                ranges_view(old(plan).negative_fields@),
                old(plan).negative_indices@,
                fields_rev(reverse_ranges(old(plan).finder.spec_ranges(line@)), line@.len() as int),
            )
            &&& match r {
                Ok(v) => v == Some((fs.len()) as usize) && oob_error(
                    old(plan).positive_indices@,
                    fs.len() as int,
                    false,
                ) is None && oob_error(old(plan).negative_indices@, fs.len() as int, true) is None,
                Err(e) => if oob_error(old(plan).positive_indices@, fs.len() as int, false) is Some {
                    oob_error(old(plan).positive_indices@, fs.len() as int, false) == Some(e@)
                } else {
                    oob_error(old(plan).negative_indices@, fs.len() as int, true) == Some(e@)
                },
            }
        },
{
    if line.len() == 0 {
        return Ok(Some(0));
    }
    let len = line.len();
    let rs = plan.finder.find_ranges(line);
    let ghost rsv = ranges_view(rs@);
    let n = rs.len();
    let mut pf: Vec<Range<usize>> = Vec::new();
    let mut next_part_start: usize = 0;
    let mut i: usize = 0;
    while i < n
        invariant
            n == rs@.len(),
            rsv == ranges_view(rs@),
            ranges_within(rsv, len as int),
            i <= n,
            next_part_start == if i == 0 {
                0
            } else {
                rsv[i - 1].1
            },
            ranges_view(pf@) == fields_fwd(rsv, len as int).subrange(0, i as int),
        decreases n - i,
    {
        let ghost before = ranges_view(pf@);
        proof {
            assert(rsv[i as int] == (rs@[i as int].start as int, rs@[i as int].end as int));
        }
        let ghost nps = next_part_start;
        pf.push(Range { start: next_part_start, end: rs[i].start });
        next_part_start = rs[i].end;
        proof {
            let ff = fields_fwd(rsv, len as int);
            assert(ranges_view(pf@) =~= before.push((nps as int, rsv[i as int].0)));
            assert(ff[i as int] == (nps as int, rsv[i as int].0));
            assert(ff.subrange(0, i + 1) =~= ff.subrange(0, i as int).push(ff[i as int]));
        }
        i = i + 1;
    }
    let ghost before = ranges_view(pf@);
    pf.push(Range { start: next_part_start, end: len });
    proof {
        let ff = fields_fwd(rsv, len as int);
        assert(ranges_view(pf@) =~= before.push((next_part_start as int, len as int)));
        assert(ff[n as int] == (next_part_start as int, len as int));
        assert(ff =~= ff.subrange(0, n as int).push(ff[n as int]));
    }
    let mut rev_rs: Vec<Range<usize>> = Vec::new();
    let mut j: usize = n;
    while j > 0
        invariant
            n == rs@.len(),
            rsv == ranges_view(rs@),
            ranges_within(rsv, len as int),
            j <= n,
            ranges_view(rev_rs@) == reverse_ranges(rsv).subrange(0, (n - j) as int),
            ranges_within(ranges_view(rev_rs@), len as int),
        decreases j,
    {
        j = j - 1;
        let ghost before = ranges_view(rev_rs@);
        proof {
            assert(rsv[j as int] == (rs@[j as int].start as int, rs@[j as int].end as int));
        }
        rev_rs.push(Range { start: rs[j].start, end: rs[j].end });
        proof {
            let rr = reverse_ranges(rsv);
            assert(ranges_view(rev_rs@) =~= before.push(rsv[j as int]));
            assert(rr[(n - 1 - j) as int] == rsv[j as int]);
            assert(rr.subrange(0, (n - j) as int) =~= rr.subrange(0, (n - 1 - j) as int).push(
                rr[(n - 1 - j) as int],
            ));
            assert forall|k: int| 0 <= k < ranges_view(rev_rs@).len() implies 0 <= (
            #[trigger] ranges_view(rev_rs@)[k]).0 <= ranges_view(rev_rs@)[k].1 <= len by {
                if k < before.len() {
                    assert(ranges_view(rev_rs@)[k] == before[k]);
                }
            }
        }
    }
    proof {
        assert(ranges_view(rev_rs@) =~= reverse_ranges(rsv));
    }
    let num_fields = pf.len();
    core::mem::swap(&mut pf, &mut plan.positive_fields);
    let mut nf = Vec::new();
    core::mem::swap(&mut nf, &mut plan.negative_fields);
    let neg_res = fill_fields(&mut nf, &plan.negative_indices, &rev_rs, len, true);
    core::mem::swap(&mut nf, &mut plan.negative_fields);
    let pos_res = first_not_below(&plan.positive_indices, num_fields);
    proof {
        lemma_first_oob_some(plan.negative_indices@, rev_rs@.len() + 1int, 0);
        lemma_first_oob_some(plan.positive_indices@, num_fields as int, 0);
    }
    match pos_res {
        Some(k) => {
            return Err(TucError::OutOfBounds(Side::with_pos_value(plan.positive_indices[k])));
        },
        None => {},
    }
    match neg_res {
        Some(k) => Err(TucError::OutOfBounds(Side::with_neg_value(plan.negative_indices[k]))),
        None => Ok(Some(num_fields)),
    }
}

/// The position in `idx` of the first index not below `n`.
fn first_not_below(idx: &Vec<usize>, n: usize) -> (r: Option<usize>)
    ensures
        match r {
            Some(k) => first_oob(idx@, n as int, 0) == Some(k as int),
            None => first_oob(idx@, n as int, 0) is None,
        },
{
    let mut i: usize = 0;
    while i < idx.len()
        invariant
            i <= idx@.len(),
            forall|j: int| 0 <= j < i ==> idx@[j] < n,
        decreases idx.len() - i,
    {
        if idx[i] >= n {
            proof {
                lemma_first_oob_skip(idx@, n as int, i as int);
            }
            return Some(i);
        }
        i = i + 1;
    }
    proof {
        lemma_first_oob_none(idx@, n as int, 0);
    }
    None
}

/// Where the stored field of side `s` starts (or ends), unless it was not
/// found.
pub open spec fn lookup_field(fields: Seq<(int, int)>, v: int) -> Option<(int, int)> {
    if 0 <= v < fields.len() && fields[v].0 != usize::MAX {
        Some(fields[v])
    } else {
        None
    }
}

/// The range of text that a bound selects, read from the stored fields: from
/// the start of its left field to the end of its right field (the end of the
/// line when the right side is open).
pub open spec fn spec_get_field(
    pf: Seq<(int, int)>,
    nf: Seq<(int, int)>,
    l: Side,
    r: Side,
    len: int,
) -> Result<(int, int), ErrorView> {
    let start = lookup_field(if l.is_negative { nf } else { pf }, l.value as int);
    let end = if !r.is_negative && r.value == usize::MAX {
        Some((len, len))
    } else {
        lookup_field(if r.is_negative { nf } else { pf }, r.value as int)
    };
    match start {
        None => Err(ErrorView::OutOfBounds(l)),
        Some(st) => match end {
            None => Err(ErrorView::OutOfBounds(r)),
            Some(e) => if e.1 < st.0 {
                Err(ErrorView::LeftGreaterThanRight)
            } else {
                Ok((st.0, e.1))
            },
        },
    }
}

fn lookup(fields: &Vec<Range<usize>>, v: usize) -> (r: Option<Range<usize>>)
    ensures
        match r {
            Some(x) => lookup_field(ranges_view(fields@), v as int) == Some((x.start as int, x.end as int)),
            None => lookup_field(ranges_view(fields@), v as int) is None,
        },
{
    if v < fields.len() && fields[v].start != usize::MAX {
        proof {
            assert(ranges_view(fields@)[v as int] == (fields@[v as int].start as int, fields@[v as int].end as int));
        }
        Some(Range { start: fields[v].start, end: fields[v].end })
    } else {
        proof {
            if v < fields.len() {
                assert(ranges_view(fields@)[v as int] == (fields@[v as int].start as int, fields@[v as int].end as int));
            }
        }
        None
    }
}

impl<F: DelimiterFinder, R: DelimiterFinder> FieldPlan<F, R> {
    /// The range of `line` (of `line_len` bytes) that bound `b` selects,
    /// read from the fields found last (see `spec_get_field`).
    pub fn get_field(&self, b: &UserBounds, line_len: usize) -> (r: Result<Range<usize>, TucError>)
        ensures
            match r {
                Ok(x) => spec_get_field(
                    ranges_view(self.positive_fields@),
                    ranges_view(self.negative_fields@),
                    b.l,
                    b.r,
                    line_len as int,
                ) == Ok::<(int, int), ErrorView>((x.start as int, x.end as int)),
                Err(e) => spec_get_field(
                    ranges_view(self.positive_fields@),
                    ranges_view(self.negative_fields@),
                    b.l,
                    b.r,
                    line_len as int,
                ) == Err::<(int, int), ErrorView>(e@),
            },
    {
        let start = if b.l.is_negative {
            lookup(&self.negative_fields, b.l.value)
        } else {
            lookup(&self.positive_fields, b.l.value)
        };
        let start = match start {
            Some(x) => x.start,
            None => {
                return Err(TucError::OutOfBounds(b.l));
            },
        };
        let end = if !b.r.is_negative && b.r.value == usize::MAX {
            line_len
        } else {
            let e = if b.r.is_negative {
                lookup(&self.negative_fields, b.r.value)
            } else {
                lookup(&self.positive_fields, b.r.value)
            };
            match e {
                Some(x) => x.end,
                None => {
                    return Err(TucError::OutOfBounds(b.r));
                },
            }
        };
        if end < start {
            return Err(TucError::LeftGreaterThanRight);
        }
        Ok(Range { start, end })
    }
}

/// Add `x` to increasing indices, keeping them increasing and without
/// repeats.
fn insert_sorted(v: &mut Vec<usize>, x: usize)
    requires
        strictly_increasing(old(v)@),
    ensures
        strictly_increasing(final(v)@),
        forall|m: int| in_idx(final(v)@, m) <==> (in_idx(old(v)@, m) || m == x),
{
    let mut p: usize = 0;
    while p < v.len() && v[p] < x
        invariant
            p <= v@.len(),
            v@ == old(v)@,
            forall|k: int| 0 <= k < p ==> v@[k] < x,
        decreases v@.len() - p,
    {
        p = p + 1;
    }
    if p < v.len() && v[p] == x {
        proof {
            assert forall|m: int| in_idx(v@, m) <==> (in_idx(v@, m) || m == x) by {
                if m == x {
                    assert(v@[p as int] == m);
                }
            }
        }
        return;
    }
    let ghost old_v = v@;
    v.insert(p, x);
    proof {
        assert forall|i: int, j: int| 0 <= i < j < v@.len() implies v@[i] < v@[j] by {
            if j < p {
            } else if i < p && j == p {
            } else if i < p && j > p {
                assert(v@[j] == old_v[j - 1]);
                if p < old_v.len() {
                    assert(old_v[p as int] > x);
                }
            } else if i == p {
                assert(v@[j] == old_v[j - 1]);
                assert(old_v[p as int] >= x);
                if j - 1 > p {
                    assert(old_v[p as int] < old_v[j - 1]);
                }
                assert(old_v[p as int] != x);
            } else {
                assert(v@[i] == old_v[i - 1]);
                assert(v@[j] == old_v[j - 1]);
            }
        }
        assert forall|m: int| in_idx(v@, m) <==> (in_idx(old_v, m) || m == x) by {
            if in_idx(v@, m) {
                let k = choose|k: int| 0 <= k < v@.len() && v@[k] == m;
                if k < p {
                    assert(old_v[k] == m);
                } else if k > p {
                    assert(old_v[k - 1] == m);
                }
            }
            if in_idx(old_v, m) {
                let k = choose|k: int| 0 <= k < old_v.len() && old_v[k] == m;
                if k < p {
                    assert(v@[k] == m);
                } else {
                    assert(v@[k + 1] == m);
                }
            }
            if m == x {
                assert(v@[p as int] == m);
            }
        }
        assert(old_v == old(v)@);
        assert(forall|m: int| in_idx(v@, m) <==> (in_idx(old(v)@, m) || m == x));
    }
}

/// `v` is a positive side of the bound (an open right side is not).
pub open spec fn bound_pos_side(b: UserBoundsView, v: int) -> bool {
    (!b.l.is_negative && b.l.value == v) || (!b.r.is_negative && b.r.value != usize::MAX && b.r.value
        == v)
}

/// `v` is a negative side of the bound.
pub open spec fn bound_neg_side(b: UserBoundsView, v: int) -> bool {
    (b.l.is_negative && b.l.value == v) || (b.r.is_negative && b.r.value == v)
}

/// Some bound of the list has positive side `v`.
pub open spec fn is_pos_index(s: Seq<BofView>, v: int) -> bool {
    exists|i: int| 0 <= i < s.len() && (#[trigger] s[i] matches BofView::Bound(b) && bound_pos_side(b, v))
}

/// Some bound of the list has negative side `v`.
pub open spec fn is_neg_index(s: Seq<BofView>, v: int) -> bool {
    exists|i: int| 0 <= i < s.len() && (#[trigger] s[i] matches BofView::Bound(b) && bound_neg_side(b, v))
}

/// No side of a bound is at the largest value, but an open right side.
pub open spec fn sides_fit(s: Seq<BofView>) -> bool {
    forall|i: int|
        0 <= i < s.len() ==> (#[trigger] s[i] matches BofView::Bound(b) ==> b.l.value < usize::MAX && (
        b.r.is_negative ==> b.r.value < usize::MAX))
}

/// The number of fields, and more, that must be known for these options.
pub open spec fn needs_num_fields(opt: Opt) -> bool {
    opt.only_delimited || opt.complement || opt.json || (opt.bounds_type == BoundsType::Characters
        && opt.replace_delimiter is Some)
}

/// How the fields are found, given whether positive and negative sides are
/// used. A regular expression cannot be searched backwards.
pub open spec fn spec_extract_mode(opt: Opt, has_pos: bool, has_neg: bool) -> Option<ExtractMode> {
    if needs_num_fields(opt) {
        Some(ExtractMode::EveryField)
    } else if !has_pos && !has_neg {
        None
    } else if !has_neg {
        Some(ExtractMode::PosIndices)
    } else if opt.regex_bag is Some {
        Some(ExtractMode::EveryField)
    } else if !has_pos {
        Some(ExtractMode::NegIndices)
    } else {
        Some(ExtractMode::BothIndices)
    }
}

/// Room for fields `0..=last`, all not found yet.
pub open spec fn fresh_fields(f: Seq<(int, int)>, idx: Seq<usize>) -> bool {
    &&& f.len() == if idx.len() == 0 {
        0
    } else {
        idx.last() + 1
    }
    &&& forall|k: int| 0 <= k < f.len() ==> #[trigger] f[k] == no_field()
}

/// `n` ranges, all marking a field not found.
fn not_found_fields(n: usize) -> (v: Vec<Range<usize>>)
    ensures
        v@.len() == n,
        forall|k: int| 0 <= k < n ==> #[trigger] ranges_view(v@)[k] == no_field(),
{
    let mut v: Vec<Range<usize>> = Vec::new();
    let mut i: usize = 0;
    while i < n
        invariant
            i <= n,
            v@.len() == i,
            forall|k: int| 0 <= k < i ==> #[trigger] ranges_view(v@)[k] == no_field(),
        decreases n - i,
    {
        let ghost before = v@;
        v.push(Range { start: usize::MAX, end: usize::MAX });
        proof {
            assert forall|k: int| 0 <= k < i + 1 implies #[trigger] ranges_view(v@)[k] == no_field() by {
                if k < i {
                    assert(v@[k] == before[k]);
                    assert(ranges_view(before)[k] == no_field());
                }
            }
        }
        i = i + 1;
    }
    v
}

proof fn lemma_increasing_last(s: Seq<usize>)
    requires
        strictly_increasing(s),
        s.len() > 0,
    ensures
        forall|k: int| 0 <= k < s.len() ==> #[trigger] s[k] <= s.last(),
{
    assert forall|k: int| 0 <= k < s.len() implies #[trigger] s[k] <= s.last() by {
        if k < s.len() - 1 {
            assert(s[k] < s[s.len() - 1]);
        }
    }
}

impl<F: DelimiterFinder, R: DelimiterFinder> FieldPlan<F, R> {
    /// A plan for the bounds of `opt`: which positive and negative fields
    /// are needed, increasing and without repeats, and how to find them. It
    /// is an error when no field at all is needed.
    pub fn from_opt_with_finders(opt: &Opt, finder: F, finder_rev: R) -> (r: Result<Self, TucError>)
        requires
            sides_fit(opt.bounds@),
        ensures
            match r {
                Ok(plan) => {
                    &&& strictly_increasing(plan.positive_indices@)
                    &&& strictly_increasing(plan.negative_indices@)
                    &&& forall|v: int| in_idx(plan.positive_indices@, v) <==> is_pos_index(opt.bounds@, v)
                    &&& forall|v: int| in_idx(plan.negative_indices@, v) <==> is_neg_index(opt.bounds@, v)
                    &&& fresh_fields(ranges_view(plan.positive_fields@), plan.positive_indices@)
                    &&& fresh_fields(ranges_view(plan.negative_fields@), plan.negative_indices@)
                    &&& spec_extract_mode(
                        *opt,
                        plan.positive_indices@.len() > 0,
                        plan.negative_indices@.len() > 0,
                    ) == Some(plan.extract_func)
                    &&& plan.finder == finder
                    &&& plan.finder_rev == finder_rev
                    &&& plan.pos_ready()
                    &&& plan.neg_ready()
                },
                Err(e) => e@ == ErrorView::NoIndices && !needs_num_fields(*opt) && (forall|v: int|
                    !is_pos_index(opt.bounds@, v)) && (forall|v: int| !is_neg_index(opt.bounds@, v)),
            },
    {
        let ghost s = opt.bounds@;
        let mut pos: Vec<usize> = Vec::new();
        let mut neg: Vec<usize> = Vec::new();
        let mut i: usize = 0;
        while i < opt.bounds.list.len()
            invariant
                i <= opt.bounds.list@.len(),
                s == opt.bounds@,
                sides_fit(s),
                strictly_increasing(pos@),
                strictly_increasing(neg@),
                forall|v: int|
                    in_idx(pos@, v) <==> is_pos_index(s.subrange(0, i as int), v),
                forall|v: int|
                    in_idx(neg@, v) <==> is_neg_index(s.subrange(0, i as int), v),
                forall|k: int| 0 <= k < pos@.len() ==> #[trigger] pos@[k] < usize::MAX,
                forall|k: int| 0 <= k < neg@.len() ==> #[trigger] neg@[k] < usize::MAX,
            decreases opt.bounds.list.len() - i,
        {
            let ghost prev_pos = pos@;
            let ghost prev_neg = neg@;
            proof {
                assert(s[i as int] == opt.bounds.list@[i as int]@);
            }
            match &opt.bounds.list[i] {
                BoundOrFiller::Bound(b) => {
                    proof {
                        assert(s[i as int] matches BofView::Bound(bv) && bv.l.value < usize::MAX);
                    }
                    if b.l.is_negative {
                        insert_sorted(&mut neg, b.l.value);
                    } else {
                        insert_sorted(&mut pos, b.l.value);
                    }
                    if b.r.is_negative {
                        insert_sorted(&mut neg, b.r.value);
                    } else if b.r.value != usize::MAX {
                        insert_sorted(&mut pos, b.r.value);
                    }
                },
                BoundOrFiller::Filler(_) => {},
            }
            proof {
                let sub = s.subrange(0, i + 1);
                assert forall|v: int| in_idx(pos@, v) <==> is_pos_index(sub, v) by {
                    if is_pos_index(sub, v) {
                        let k = choose|k: int| 0 <= k < sub.len() && (#[trigger] sub[k] matches BofView::Bound(b) && bound_pos_side(b, v));
                        if k < i {
                            assert(s.subrange(0, i as int)[k] == sub[k]);
                        }
                    }
                    if is_pos_index(s.subrange(0, i as int), v) {
                        let k = choose|k: int| 0 <= k < i && (#[trigger] s.subrange(0, i as int)[k] matches BofView::Bound(b) && bound_pos_side(b, v));
                        assert(sub[k] == s.subrange(0, i as int)[k]);
                    }
                    if in_idx(pos@, v) && !in_idx(prev_pos, v) {
                        assert(sub[i as int] == s[i as int]);
                    }
                }
                assert forall|v: int| in_idx(neg@, v) <==> is_neg_index(sub, v) by {
                    if is_neg_index(sub, v) {
                        let k = choose|k: int| 0 <= k < sub.len() && (#[trigger] sub[k] matches BofView::Bound(b) && bound_neg_side(b, v));
                        if k < i {
                            assert(s.subrange(0, i as int)[k] == sub[k]);
                        }
                    }
                    if is_neg_index(s.subrange(0, i as int), v) {
                        let k = choose|k: int| 0 <= k < i && (#[trigger] s.subrange(0, i as int)[k] matches BofView::Bound(b) && bound_neg_side(b, v));
                        assert(sub[k] == s.subrange(0, i as int)[k]);
                    }
                    if in_idx(neg@, v) && !in_idx(prev_neg, v) {
                        assert(sub[i as int] == s[i as int]);
                    }
                }
                assert forall|k: int| 0 <= k < pos@.len() implies #[trigger] pos@[k] < usize::MAX by {
                    assert(in_idx(pos@, pos@[k] as int));
                    if !in_idx(prev_pos, pos@[k] as int) {
                        assert(sub[i as int] == s[i as int]);
                    } else {
                        let j = choose|j: int| 0 <= j < prev_pos.len() && prev_pos[j] == pos@[k];
                    }
                }
                assert forall|k: int| 0 <= k < neg@.len() implies #[trigger] neg@[k] < usize::MAX by {
                    assert(in_idx(neg@, neg@[k] as int));
                    if !in_idx(prev_neg, neg@[k] as int) {
                        assert(sub[i as int] == s[i as int]);
                    } else {
                        let j = choose|j: int| 0 <= j < prev_neg.len() && prev_neg[j] == neg@[k];
                    }
                }
            }
            i = i + 1;
        }
        proof {
            assert(s.subrange(0, s.len() as int) =~= s);
        }
        let need_num_fields = opt.only_delimited || opt.complement || opt.json || (opt.bounds_type
            == BoundsType::Characters && opt.replace_delimiter.is_some());
        let has_pos = pos.len() > 0;
        let has_neg = neg.len() > 0;
        let extract_func = if need_num_fields {
            ExtractMode::EveryField
        } else if !has_pos && !has_neg {
            proof {
                assert forall|v: int| !is_pos_index(s, v) by {
                    if is_pos_index(s, v) {
                        assert(in_idx(pos@, v));
                    }
                }
                assert forall|v: int| !is_neg_index(s, v) by {
                    if is_neg_index(s, v) {
                        assert(in_idx(neg@, v));
                    }
                }
            }
            return Err(TucError::NoIndices);
        } else if !has_neg {
            ExtractMode::PosIndices
        } else if opt.regex_bag.is_some() {
            ExtractMode::EveryField
        } else if !has_pos {
            ExtractMode::NegIndices
        } else {
            ExtractMode::BothIndices
        };
        let pos_len: usize = if has_pos {
            pos[pos.len() - 1] + 1
        } else {
            0
        };
        let neg_len: usize = if has_neg {
            neg[neg.len() - 1] + 1
        } else {
            0
        };
        let positive_fields = not_found_fields(pos_len);
        let negative_fields = not_found_fields(neg_len);
        proof {
            if has_pos {
                lemma_increasing_last(pos@);
            }
            if has_neg {
                lemma_increasing_last(neg@);
            }
            assert(ranges_view(positive_fields@).len() == positive_fields@.len());
            assert(ranges_view(negative_fields@).len() == negative_fields@.len());
        }
        Ok(
            FieldPlan {
                positive_indices: pos,
                negative_indices: neg,
                positive_fields,
                negative_fields,
                extract_func,
                finder,
                finder_rev,
            },
        )
    }
}

impl FieldPlan<FixedFinder, FixedFinderRev> {
    /// A plan that finds the delimiter of `opt` as fixed text.
    pub fn from_opt_memmem(opt: &Opt) -> (r: Result<Self, TucError>)
        requires
            sides_fit(opt.bounds@),
        ensures
            match r {
                Ok(plan) => plan.finder.pattern@ == opt.delimiter@ && plan.finder_rev.pattern@
                    == opt.delimiter@ && plan_for(plan, *opt),
                Err(e) => e@ == ErrorView::NoIndices && no_plan_for(*opt),
            },
    {
        let finder = FixedFinder::new(opt.delimiter.as_slice());
        let finder_rev = FixedFinderRev::new(opt.delimiter.as_slice());
        Self::from_opt_with_finders(opt, finder, finder_rev)
    }

    /// A plan that finds `delimiter` as fixed text (the delimiter that the
    /// line holds once it has been replaced).
    pub fn from_opt_fixed_with_custom_delimiter(opt: &Opt, delimiter: &[u8]) -> (r: Result<Self, TucError>)
        requires
            sides_fit(opt.bounds@),
        ensures
            match r {
                Ok(plan) => plan.finder.pattern@ == delimiter@ && plan.finder_rev.pattern@ == delimiter@
                    && plan_for(plan, *opt),
                Err(e) => e@ == ErrorView::NoIndices && no_plan_for(*opt),
            },
    {
        let finder = FixedFinder::new(delimiter);
        let finder_rev = FixedFinderRev::new(delimiter);
        Self::from_opt_with_finders(opt, finder, finder_rev)
    }
}

impl FieldPlan<FixedGreedyFinder, FixedGreedyFinderRev> {
    /// A plan that finds runs of the delimiter of `opt` as one delimiter.
    pub fn from_opt_fixed_greedy(opt: &Opt) -> (r: Result<Self, TucError>)
        requires
            sides_fit(opt.bounds@),
        ensures
            match r {
                Ok(plan) => plan.finder.pattern@ == opt.delimiter@ && plan.finder_rev.pattern@
                    == opt.delimiter@ && plan_for(plan, *opt),
                Err(e) => e@ == ErrorView::NoIndices && no_plan_for(*opt),
            },
    {
        let finder = FixedGreedyFinder::new(opt.delimiter.as_slice());
        let finder_rev = FixedGreedyFinderRev::new(opt.delimiter.as_slice());
        Self::from_opt_with_finders(opt, finder, finder_rev)
    }
}

impl FieldPlan<RegexFinder, RegexFinder> {
    /// A plan that finds the matches of `regex` (it cannot search backwards,
    /// so every field is found when negative sides are used).
    pub fn from_opt_regex(opt: &Opt, regex: CompiledRegex, trim_empty: bool) -> (r: Result<
        Self,
        TucError,
    >)
        requires
            sides_fit(opt.bounds@),
        ensures
            match r {
                Ok(plan) => plan.finder.regex@ == regex@ && plan.finder.trim_empty == trim_empty
                    && plan.finder_rev.regex@ == regex@ && plan.finder_rev.trim_empty == trim_empty
                    && plan_for(plan, *opt),
                Err(e) => e@ == ErrorView::NoIndices && no_plan_for(*opt),
            },
    {
        let finder = RegexFinder::new_with_trim(regex.duplicate(), trim_empty);
        let finder_rev = RegexFinder::new_with_trim(regex, trim_empty);
        Self::from_opt_with_finders(opt, finder, finder_rev)
    }
}

/// `plan` is the plan for the bounds of `opt` (see `from_opt_with_finders`).
pub open spec fn plan_for<F: DelimiterFinder, R: DelimiterFinder>(plan: FieldPlan<F, R>, opt: Opt) -> bool {
    &&& strictly_increasing(plan.positive_indices@)
    &&& strictly_increasing(plan.negative_indices@)
    &&& forall|v: int| in_idx(plan.positive_indices@, v) <==> is_pos_index(opt.bounds@, v)
    &&& forall|v: int| in_idx(plan.negative_indices@, v) <==> is_neg_index(opt.bounds@, v)
    &&& fresh_fields(ranges_view(plan.positive_fields@), plan.positive_indices@)
    &&& fresh_fields(ranges_view(plan.negative_fields@), plan.negative_indices@)
    &&& spec_extract_mode(opt, plan.positive_indices@.len() > 0, plan.negative_indices@.len() > 0)
        == Some(plan.extract_func)
    &&& plan.pos_ready()
    &&& plan.neg_ready()
}

/// No plan can be made for `opt`: no field is needed at all.
pub open spec fn no_plan_for(opt: Opt) -> bool {
    !needs_num_fields(opt) && (forall|v: int| !is_pos_index(opt.bounds@, v)) && (forall|v: int|
        !is_neg_index(opt.bounds@, v))
}

/// A plan for `opt` exists only when some field is needed.
pub proof fn lemma_plan_for_needs_fields<F: DelimiterFinder, R: DelimiterFinder>(
    plan: FieldPlan<F, R>,
    opt: Opt,
)
    requires
        plan_for(plan, opt),
    ensures
        !no_plan_for(opt),
{
    if plan.positive_indices@.len() > 0 {
        assert(in_idx(plan.positive_indices@, plan.positive_indices@[0] as int));
    }
    if plan.negative_indices@.len() > 0 {
        assert(in_idx(plan.negative_indices@, plan.negative_indices@[0] as int));
    }
}

} // verus!
