//! Cut fields with fixed memory: the input arrives in chunks of at most a
//! given size, and each chunk is processed as it comes. The state carries
//! a field begun in one chunk into the next, so what is printed does not
//! depend on the chunk size.
use crate::options::{opt_bytes, spec_eol_byte, BoundsType, Opt, EOL};
use crate::parse::spec_bounds_list_from;
use crate::side::{ErrorView, Side, TucError};
use crate::search::{ints, memchr2_find_all, positions2};
use crate::text::{append_bytes, find_byte, first_index_of};
use crate::userbounds::{BofView, BoundOrFiller, UserBounds, UserBoundsView};
use crate::userboundslist::{
    bofs_view, bounds_only, duplicate_bof, lemma_bounds_only_step, mark_last, spec_has_negative_indices,
    spec_is_forward_only, UserBoundsList,
};
use vstd::prelude::*;

verus! {

/// Two consecutive bounds start at the same field.
pub open spec fn repeats_start(bs: Seq<UserBoundsView>) -> bool {
    exists|k: int| 0 <= k < bs.len() - 1 && #[trigger] bs[k].l.value == bs[k + 1].l.value
}

/// A list that the stream can work with: non-empty, forward only, no two
/// consecutive bounds starting at the same field, at least one bound.
pub open spec fn forward_bounds_ok(s: Seq<BofView>) -> bool {
    &&& s.len() > 0
    &&& spec_is_forward_only(s)
    &&& !repeats_start(bounds_only(s))
    &&& bounds_only(s).len() > 0
}

/// Why a list is no good for the stream, in the order it is checked.
pub open spec fn forward_bounds_problem(s: Seq<BofView>) -> Seq<char> {
    if s.len() == 0 {
        "Cannot create ForwardBounds from an empty UserBoundsList"@
    } else if !spec_is_forward_only(s) {
        "The provided UserBoundsList is not forward only"@
    } else if repeats_start(bounds_only(s)) {
        "Bounds are sorted, but can't be repeated"@
    } else {
        "Cannot create ForwardBounds from UserBoundsList without bounds"@
    }
}

/// The entry of the last bound of a list.
pub open spec fn is_last_bound_at(s: Seq<BofView>, i: int) -> bool {
    &&& 0 <= i < s.len()
    &&& s[i] is Bound
    &&& forall|j: int| i < j < s.len() ==> !(#[trigger] s[j] is Bound)
}

proof fn lemma_repeats_prefix(s: Seq<BofView>, i: int)
    requires
        0 <= i <= s.len(),
        repeats_start(bounds_only(s.subrange(0, i))),
    ensures
        repeats_start(bounds_only(s)),
    decreases s.len() - i,
{
    if i < s.len() {
        lemma_bounds_only_step(s, i);
        let a = bounds_only(s.subrange(0, i));
        let b = bounds_only(s.subrange(0, i + 1));
        let k = choose|k: int| 0 <= k < a.len() - 1 && #[trigger] a[k].l.value == a[k + 1].l.value;
        assert(a[k] == b[k] && a[k + 1] == b[k + 1]);
        assert(b[k].l.value == b[k + 1].l.value);
        lemma_repeats_prefix(s, i + 1);
    } else {
        assert(s.subrange(0, i) =~= s);
    }
}

proof fn lemma_no_bound_means_empty(s: Seq<BofView>)
    requires
        forall|j: int| 0 <= j < s.len() ==> !(#[trigger] s[j] is Bound),
    ensures
        bounds_only(s).len() == 0,
    decreases s.len(),
{
    if s.len() > 0 {
        assert(!(s[s.len() - 1] is Bound));
        assert forall|j: int| 0 <= j < s.drop_last().len() implies !(#[trigger] s.drop_last()[j] is Bound) by {
            assert(s.drop_last()[j] == s[j]);
        }
        lemma_no_bound_means_empty(s.drop_last());
    }
}

proof fn lemma_bound_in_bounds_only(s: Seq<BofView>, k: int)
    requires
        0 <= k < s.len(),
        s[k] is Bound,
    ensures
        bounds_only(s).len() > 0,
    decreases s.len(),
{
    if k < s.len() - 1 {
        assert(s.drop_last()[k] == s[k]);
        lemma_bound_in_bounds_only(s.drop_last(), k);
        lemma_bounds_only_grows(s);
    }
}

proof fn lemma_bounds_only_grows(s: Seq<BofView>)
    requires
        s.len() > 0,
    ensures
        bounds_only(s.drop_last()).len() <= bounds_only(s).len(),
{
}

/// Marking the last bound changes no kind of entry and no side.
proof fn lemma_mark_last_keeps_kinds(s: Seq<BofView>)
    ensures
        mark_last(s).len() == s.len(),
        forall|j: int| 0 <= j < s.len() ==> (#[trigger] mark_last(s)[j] is Bound <==> s[j] is Bound),
        forall|j: int|
            0 <= j < s.len() && s[j] is Bound ==> (#[trigger] mark_last(s)[j])->Bound_0.l == s[j]->Bound_0.l
                && mark_last(s)[j]->Bound_0.r == s[j]->Bound_0.r,
{
}

/// Bounds that only move forward, each starting after the previous one,
/// with the entry of the last bound.
#[derive(Debug)]
pub struct ForwardBounds {
    pub list: UserBoundsList,
    pub last_bound_idx: usize,
}

impl ForwardBounds {
    /// The last bound is where `last_bound_idx` says, and no side counts
    /// from the end.
    pub open spec fn wf(&self) -> bool {
        &&& is_last_bound_at(self.list@, self.last_bound_idx as int)
        &&& !spec_has_negative_indices(self.list@)
    }

    /// Check that a list of bounds is non-empty, moves forward only, never
    /// starts two consecutive bounds at the same field and holds a bound.
    pub fn try_from(value: &UserBoundsList) -> (r: Result<ForwardBounds, &'static str>)
        ensures
            !forward_bounds_ok(value@) ==> (r matches Err(m) && m@ == forward_bounds_problem(value@)),
            forward_bounds_ok(value@) ==> (r matches Ok(f) && f.wf() && f.list@ == mark_last(value@)),
    {
        if value.list.len() == 0 {
            return Err("Cannot create ForwardBounds from an empty UserBoundsList");
        }
        if !value.is_forward_only() {
            return Err("The provided UserBoundsList is not forward only");
        }
        let ghost s = value@;
        let mut prev: Option<usize> = None;
        let mut last: Option<usize> = None;
        let mut copy: Vec<BoundOrFiller> = Vec::new();
        let mut i: usize = 0;
        while i < value.list.len()
            invariant
                i <= value.list@.len(),
                s == value@,
                s.len() > 0,
                spec_is_forward_only(s),
                bofs_view(copy@) == s.subrange(0, i as int),
                !repeats_start(bounds_only(s.subrange(0, i as int))),
                match prev {
                    None => bounds_only(s.subrange(0, i as int)).len() == 0,
                    Some(p) => bounds_only(s.subrange(0, i as int)).len() > 0 && bounds_only(
                        s.subrange(0, i as int),
                    ).last().l.value == p,
                },
                match last {
                    None => forall|j: int| 0 <= j < i ==> !(#[trigger] s[j] is Bound),
                    Some(k) => k < i && s[k as int] is Bound && forall|j: int|
                        k < j < i ==> !(#[trigger] s[j] is Bound),
                },
            decreases value.list.len() - i,
        {
            proof {
                lemma_bounds_only_step(s, i as int);
                assert(s[i as int] == value.list@[i as int]@);
            }
            match &value.list[i] {
                BoundOrFiller::Bound(b) => {
                    match prev {
                        Some(p) => {
                            if p == b.l.value {
                                proof {
                                    let bs = bounds_only(s.subrange(0, i as int + 1));
                                    assert(bs[bs.len() - 2].l.value == bs[bs.len() - 1].l.value);
                                    lemma_repeats_prefix(s, i as int + 1);
                                }
                                return Err("Bounds are sorted, but can't be repeated");
                            }
                        },
                        None => {},
                    }
                    proof {
                        let a = bounds_only(s.subrange(0, i as int));
                        let bs = bounds_only(s.subrange(0, i as int + 1));
                        assert forall|k: int| 0 <= k < bs.len() - 1 implies !(#[trigger] bs[k].l.value
                            == bs[k + 1].l.value) by {
                            if k < a.len() - 1 {
                                assert(bs[k] == a[k] && bs[k + 1] == a[k + 1]);
                            }
                        }
                    }
                    prev = Some(b.l.value);
                    last = Some(i);
                },
                BoundOrFiller::Filler(_) => {},
            }
            copy.push(duplicate_bof(&value.list[i]));
            proof {
                assert(bofs_view(copy@) =~= s.subrange(0, i as int + 1));
            }
            i = i + 1;
        }
        proof {
            assert(s.subrange(0, s.len() as int) =~= s);
        }
        match last {
            None => {
                proof {
                    lemma_no_bound_means_empty(s);
                }
                Err("Cannot create ForwardBounds from UserBoundsList without bounds")
            },
            Some(k) => {
                let list = UserBoundsList::new(copy);
                proof {
                    lemma_mark_last_keeps_kinds(s);
                    lemma_bound_in_bounds_only(s, k as int);
                    let m = mark_last(s);
                    assert(is_last_bound_at(m, k as int));
                    if spec_has_negative_indices(m) {
                        let j = choose|j: int| 0 <= j < m.len() && (#[trigger] m[j] matches BofView::Bound(b) && (
                            b.l.is_negative || b.r.is_negative));
                        assert(s[j] matches BofView::Bound(b) && (b.l.is_negative || b.r.is_negative));
                        assert(spec_has_negative_indices(s));
                    }
                }
                Ok(ForwardBounds { list, last_bound_idx: k })
            },
        }
    }

    /// The last bound of the list.
    pub fn get_last_bound(&self) -> (b: &UserBounds)
        requires
            self.wf(),
        ensures
            self.list@[self.last_bound_idx as int] == BofView::Bound(b@),
    {
        proof {
            assert(self.list@[self.last_bound_idx as int] == self.list.list@[self.last_bound_idx as int]@);
        }
        match &self.list.list[self.last_bound_idx] {
            BoundOrFiller::Bound(b) => b,
            BoundOrFiller::Filler(_) => vstd::pervasive::unreached(),
        }
    }
}

/// Why a text could not give forward bounds.
#[derive(Debug)]
pub enum ForwardBoundsError {
    /// The text is not a list of bounds.
    Bounds(TucError),
    /// The list does not move forward as the stream needs.
    Shape(&'static str),
}

impl ForwardBounds {
    /// Parse a list of bounds (see `UserBoundsList::from_str`) and check it
    /// (see `try_from`).
    pub fn from_str(s: &str) -> (r: Result<ForwardBounds, ForwardBoundsError>)
        ensures
            match r {
                Ok(f) => spec_bounds_list_from(s) matches Ok(v) && forward_bounds_ok(mark_last(v)) && f.wf()
                    && f.list@ == mark_last(v),
                Err(ForwardBoundsError::Bounds(e)) => spec_bounds_list_from(s) == Err::<Seq<BofView>, ErrorView>(
                    e@,
                ),
                Err(ForwardBoundsError::Shape(m)) => spec_bounds_list_from(s) matches Ok(v) && !forward_bounds_ok(
                    mark_last(v),
                ) && m@ == forward_bounds_problem(mark_last(v)),
            },
    {
        let list = match UserBoundsList::from_str(s) {
            Ok(l) => l,
            Err(e) => {
                return Err(ForwardBoundsError::Bounds(e));
            },
        };
        proof {
            crate::laws::law_mark_last_is_idempotent(spec_bounds_list_from(s)->Ok_0);
        }
        match ForwardBounds::try_from(&list) {
            Ok(f) => Ok(f),
            Err(m) => Err(ForwardBoundsError::Shape(m)),
        }
    }
}

/// The options of the fixed-memory stream.
#[derive(Debug)]
pub struct StreamOpt {
    pub delimiter: u8,
    pub replace_delimiter: Option<u8>,
    pub join: bool,
    pub eol: EOL,
    pub fallback_oob: Option<Vec<u8>>,
    pub bounds: ForwardBounds,
}

/// The options ask for something the stream cannot do with fixed memory.
pub open spec fn stream_unsupported(o: Opt) -> bool {
    o.complement || o.greedy_delimiter || o.compress_delimiter || o.json || o.bounds_type != BoundsType::Fields
        || (o.replace_delimiter is Some && o.replace_delimiter.unwrap()@.len() != 1) || o.trim is Some
        || o.regex_bag is Some || o.only_delimited
}

impl StreamOpt {
    /// The stream options for `value`, when it asks only for what the
    /// stream does: a one-byte delimiter (and replacement), forward fields
    /// that the stream can follow, no complement, greedy or compressed
    /// delimiter, JSON, trim, regular expression or `only_delimited`.
    pub fn try_from(value: &Opt) -> (r: Result<StreamOpt, &'static str>)
        ensures
            value.delimiter@.len() != 1 ==> (r matches Err(m) && m@
                == "Delimiter must be 1 byte wide for FastOpt"@),
            value.delimiter@.len() == 1 && stream_unsupported(*value) ==> (r matches Err(m) && m@
                == "StreamOpt supports solely forward fields, join and single-character delimiters"@),
            value.delimiter@.len() == 1 && !stream_unsupported(*value) && !forward_bounds_ok(value.bounds@) ==> (
            r matches Err(m) && m@ == "Bounds cannot be converted to ForwardBounds"@),
            value.delimiter@.len() == 1 && !stream_unsupported(*value) && forward_bounds_ok(value.bounds@) ==> (
            r matches Ok(o) && o.delimiter == value.delimiter@[0] && o.replace_delimiter == (match value.replace_delimiter {
                Some(x) => Some(x@[0]),
                None => None,
            }) && o.join == value.join && o.eol == value.eol && opt_bytes(o.fallback_oob) == opt_bytes(
                value.fallback_oob,
            ) && o.bounds.wf() && o.bounds.list@ == mark_last(value.bounds@)),
    {
        if value.delimiter.len() != 1 {
            return Err("Delimiter must be 1 byte wide for FastOpt");
        }
        let bad_replace = match &value.replace_delimiter {
            Some(x) => x.len() != 1,
            None => false,
        };
        if value.complement || value.greedy_delimiter || value.compress_delimiter || value.json
            || value.bounds_type != BoundsType::Fields || bad_replace || value.trim.is_some()
            || value.regex_bag.is_some() || value.only_delimited {
            return Err("StreamOpt supports solely forward fields, join and single-character delimiters");
        }
        match ForwardBounds::try_from(&value.bounds) {
            Ok(forward_bounds) => {
                let replace_delimiter = match &value.replace_delimiter {
                    Some(x) => Some(x[0]),
                    None => None,
                };
                let fallback_oob = match &value.fallback_oob {
                    Some(v) => Some(vstd::slice::slice_to_vec(v.as_slice())),
                    None => None,
                };
                Ok(
                    StreamOpt {
                        delimiter: value.delimiter[0],
                        replace_delimiter,
                        join: value.join,
                        eol: value.eol,
                        fallback_oob,
                        bounds: forward_bounds,
                    },
                )
            },
            Err(_) => Err("Bounds cannot be converted to ForwardBounds"),
        }
    }
}

/// Where the stream stands in the line it is cutting.
#[derive(Debug, Clone, Copy, PartialEq, Eq, Structural)]
pub struct StreamState {
    /// The entry of the bounds waiting to be printed.
    pub bof_idx: usize,
    /// The field (0-indexed) that the input is in.
    pub curr_field: usize,
    /// The current field has begun: the filler and the delimiter before it
    /// are out.
    pub in_field: bool,
    /// The last interesting field is over: the rest of the line is skipped.
    pub skipping: bool,
    /// Nothing of the line has arrived yet.
    pub empty_line: bool,
}

/// The state at the start of a line.
pub open spec fn line_start() -> StreamState {
    StreamState { bof_idx: 0, curr_field: 0, in_field: false, skipping: false, empty_line: true }
}

/// The byte printed between fields.
pub open spec fn out_delimiter(opt: StreamOpt) -> u8 {
    match opt.replace_delimiter {
        Some(x) => x,
        None => opt.delimiter,
    }
}

/// What is left of the entries from `idx` on once the line has no more
/// fields: fillers as they are, bounds by their fallback or the general
/// one; a bound without any fallback is out of bounds.
pub open spec fn spec_fillers_fallbacks(opt: StreamOpt, idx: int) -> (Seq<u8>, Option<ErrorView>)
    decreases opt.bounds.list@.len() - idx,
{
    let bofs = opt.bounds.list@;
    if idx < 0 || idx >= bofs.len() {
        (Seq::empty(), None)
    } else {
        match bofs[idx] {
            BofView::Filler(f) => {
                let r = spec_fillers_fallbacks(opt, idx + 1);
                (f + r.0, r.1)
            },
            BofView::Bound(b) => match b.fallback_oob {
                Some(fb) => {
                    let r = spec_fillers_fallbacks(opt, idx + 1);
                    (fb + r.0, r.1)
                },
                None => match opt.fallback_oob {
                    Some(g) => {
                        let r = spec_fillers_fallbacks(opt, idx + 1);
                        (g@ + r.0, r.1)
                    },
                    None => (Seq::empty(), Some(ErrorView::OutOfBounds(b.l))),
                },
            },
        }
    }
}

/// The entry from which the end of a line prints what is left (see
/// `spec_fillers_fallbacks`), at field `f`: past a bound open to the right
/// that covers the field, which has printed all it takes.
pub open spec fn line_end_from(opt: StreamOpt, idx: int, f: int) -> int {
    if covers(opt, idx, f) && opt.bounds.list@[idx]->Bound_0.r.value == usize::MAX {
        idx + 1
    } else {
        idx
    }
}

proof fn lemma_fillers_unfold(opt: StreamOpt, idx: int)
    requires
        0 <= idx < opt.bounds.list@.len(),
    ensures
        spec_fillers_fallbacks(opt, idx) == match opt.bounds.list@[idx] {
            BofView::Filler(f) => {
                let r = spec_fillers_fallbacks(opt, idx + 1);
                (f + r.0, r.1)
            },
            BofView::Bound(b) => match b.fallback_oob {
                Some(fb) => {
                    let r = spec_fillers_fallbacks(opt, idx + 1);
                    (fb + r.0, r.1)
                },
                None => match opt.fallback_oob {
                    Some(g) => {
                        let r = spec_fillers_fallbacks(opt, idx + 1);
                        (g@ + r.0, r.1)
                    },
                    None => (Seq::empty(), Some(ErrorView::OutOfBounds(b.l))),
                },
            },
        },
{
}

/// Print the fillers and fallbacks left from entry `bof_idx` on (see
/// `spec_fillers_fallbacks`).
fn print_filler_or_fallbacks(stdout: &mut Vec<u8>, bof_idx: usize, opt: &StreamOpt) -> (r: Result<(), TucError>)
    ensures
        final(stdout)@ == old(stdout)@ + spec_fillers_fallbacks(*opt, bof_idx as int).0,
        match r {
            Ok(_) => spec_fillers_fallbacks(*opt, bof_idx as int).1 is None,
            Err(e) => spec_fillers_fallbacks(*opt, bof_idx as int).1 == Some(e@),
        },
{
    let ghost total = spec_fillers_fallbacks(*opt, bof_idx as int);
    let ghost start = stdout@;
    let n = opt.bounds.list.list.len();
    let mut i = bof_idx;
    proof {
        assert(stdout@.subrange(start.len() as int, stdout@.len() as int) =~= Seq::<u8>::empty());
        assert(total.0 =~= Seq::<u8>::empty() + total.0);
    }
    while i < n
        invariant
            n == opt.bounds.list@.len(),
            bof_idx <= i,
            total == spec_fillers_fallbacks(*opt, bof_idx as int),
            total.0 == stdout@.subrange(start.len() as int, stdout@.len() as int) + spec_fillers_fallbacks(
                *opt,
                i as int,
            ).0,
            total.1 == spec_fillers_fallbacks(*opt, i as int).1,
            stdout@.len() >= start.len(),
            stdout@.subrange(0, start.len() as int) == start,
            start == old(stdout)@,
        decreases n - i,
    {
        proof {
            lemma_fillers_unfold(*opt, i as int);
            assert(opt.bounds.list@[i as int] == opt.bounds.list.list@[i as int]@);
        }
        let ghost printed = stdout@.subrange(start.len() as int, stdout@.len() as int);
        match &opt.bounds.list.list[i] {
            BoundOrFiller::Filler(f) => {
                append_bytes(stdout, f.as_slice());
                proof {
                    assert(stdout@.subrange(0, start.len() as int) =~= start);
                    assert(stdout@.subrange(start.len() as int, stdout@.len() as int) =~= printed + f@);
                }
            },
            BoundOrFiller::Bound(b) => {
                match &b.fallback_oob {
                    Some(fb) => {
                        append_bytes(stdout, fb.as_slice());
                        proof {
                            assert(stdout@.subrange(0, start.len() as int) =~= start);
                            assert(stdout@.subrange(start.len() as int, stdout@.len() as int) =~= printed + fb@);
                        }
                    },
                    None => match &opt.fallback_oob {
                        Some(g) => {
                            append_bytes(stdout, g.as_slice());
                            proof {
                                assert(stdout@.subrange(0, start.len() as int) =~= start);
                                assert(stdout@.subrange(start.len() as int, stdout@.len() as int) =~= printed + g@);
                            }
                        },
                        None => {
                            proof {
                                assert(total.0 =~= printed + Seq::<u8>::empty());
                                assert(stdout@ =~= start + total.0);
                            }
                            return Err(TucError::OutOfBounds(b.l));
                        },
                    },
                }
            },
        }
        i = i + 1;
    }
    proof {
        assert(stdout@ =~= start + total.0);
    }
    Ok(())
}

/// The positions of either byte lie in the text, hold one of the two bytes
/// and increase.
proof fn lemma_positions2(h: Seq<u8>, a: u8, b: u8, i: int)
    requires
        0 <= i,
    ensures
        ({
            let ps = positions2(h, a, b, i);
            &&& forall|k: int| 0 <= k < ps.len() ==> i <= #[trigger] ps[k] < h.len() && (h[ps[k]] == a || h[ps[k]] == b)
            &&& forall|k: int| 0 <= k < ps.len() - 1 ==> #[trigger] ps[k] < ps[k + 1]
        }),
    decreases h.len() - i,
{
    if i < h.len() {
        lemma_positions2(h, a, b, i + 1);
        let r = positions2(h, a, b, i + 1);
        if h[i] == a || h[i] == b {
            let ps = seq![i] + r;
            assert(positions2(h, a, b, i) == ps);
            assert forall|k: int| 0 <= k < ps.len() implies i <= #[trigger] ps[k] < h.len() && (h[ps[k]] == a
                || h[ps[k]] == b) by {
                if k > 0 {
                    assert(ps[k] == r[k - 1]);
                }
            }
            assert forall|k: int| 0 <= k < ps.len() - 1 implies #[trigger] ps[k] < ps[k + 1] by {
                assert(ps[k + 1] == r[k]);
                if k > 0 {
                    assert(ps[k] == r[k - 1]);
                }
            }
        }
    }
}

/// Entry `idx` is a bound that covers field `f`.
pub open spec fn covers(opt: StreamOpt, idx: int, f: int) -> bool {
    let bofs = opt.bounds.list@;
    &&& 0 <= idx < bofs.len()
    &&& bofs[idx] is Bound
    &&& bofs[idx]->Bound_0.l.value <= f <= bofs[idx]->Bound_0.r.value
}

/// Entering the current field (once): a filler waiting there is printed and
/// passed; inside a range the field comes after the delimiter.
pub open spec fn spec_enter(opt: StreamOpt, st: StreamState) -> (Seq<u8>, StreamState) {
    if st.in_field {
        (Seq::empty(), st)
    } else {
        let bofs = opt.bounds.list@;
        let idx = st.bof_idx as int;
        let f = st.curr_field as int;
        let filler = 0 <= idx < bofs.len() && bofs[idx] is Filler;
        let o1 = if filler {
            bofs[idx]->Filler_0
        } else {
            Seq::empty()
        };
        let i1 = if filler {
            idx + 1
        } else {
            idx
        };
        let pre = if covers(opt, i1, f) && f > bofs[i1]->Bound_0.l.value {
            seq![out_delimiter(opt)]
        } else {
            Seq::empty()
        };
        (o1 + pre, StreamState { bof_idx: i1 as usize, in_field: true, empty_line: false, ..st })
    }
}

/// Ending the current field: a bound that ends there is passed, followed by
/// the delimiter when the parts are joined and more bounds follow. Also the
/// entry reached.
pub open spec fn spec_finish(opt: StreamOpt, st: StreamState) -> (Seq<u8>, usize) {
    let bofs = opt.bounds.list@;
    let idx = st.bof_idx as int;
    if covers(opt, idx, st.curr_field as int) && bofs[idx]->Bound_0.r.value == st.curr_field {
        (
            if opt.join && !bofs[idx]->Bound_0.is_last {
                seq![out_delimiter(opt)]
            } else {
                Seq::empty()
            },
            (idx + 1) as usize,
        )
    } else {
        (Seq::empty(), st.bof_idx)
    }
}

/// Field `f` is the last one that any bound looks at.
pub open spec fn is_last_field(last: Side, f: int) -> bool {
    !last.is_negative && last.value != usize::MAX && f == last.value
}

/// What one byte of the input prints, and the state after it or the error
/// it stops on. A line terminator ends the line: the fields still owed are
/// given by their fallbacks (an empty line is printed as it is); a
/// delimiter ends a field, and the line once its last interesting field is
/// over; any other byte is printed when a bound covers its field.
pub open spec fn spec_byte(opt: StreamOpt, last: Side, st: StreamState, c: u8) -> (
    Seq<u8>,
    Result<StreamState, ErrorView>,
) {
    let eol = spec_eol_byte(opt.eol);
    if st.skipping {
        if c == eol {
            (seq![eol], Ok(line_start()))
        } else {
            (Seq::empty(), Ok(st))
        }
    } else if c == eol && st.empty_line {
        (seq![eol], Ok(line_start()))
    } else {
        let e = spec_enter(opt, st);
        let s1 = e.1;
        let f = st.curr_field as int;
        if c == eol || c == opt.delimiter {
            let fin = spec_finish(opt, s1);
            if c == eol || is_last_field(last, f) {
                let ff = spec_fillers_fallbacks(opt, line_end_from(opt, fin.1 as int, f));
                match ff.1 {
                    Some(err) => (e.0 + fin.0 + ff.0, Err(err)),
                    None => if c == eol {
                        (e.0 + fin.0 + ff.0 + seq![eol], Ok(line_start()))
                    } else {
                        (e.0 + fin.0 + ff.0, Ok(StreamState { bof_idx: fin.1, skipping: true, ..s1 }))
                    },
                }
            } else {
                (
                    e.0 + fin.0,
                    Ok(
                        StreamState {
                            bof_idx: fin.1,
                            curr_field: (f + 1) as usize,
                            in_field: false,
                            skipping: false,
                            empty_line: false,
                        },
                    ),
                )
            }
        } else {
            (
                e.0 + if covers(opt, s1.bof_idx as int, f) {
                    seq![c]
                } else {
                    Seq::empty()
                },
                Ok(s1),
            )
        }
    }
}

/// What the bytes print, one after the other, and the state after them or
/// the first error.
pub open spec fn spec_feed(opt: StreamOpt, last: Side, st: StreamState, bytes: Seq<u8>) -> (
    Seq<u8>,
    Result<StreamState, ErrorView>,
)
    decreases bytes.len(),
{
    if bytes.len() == 0 {
        (Seq::empty(), Ok(st))
    } else {
        let p = spec_feed(opt, last, st, bytes.drop_last());
        match p.1 {
            Err(e) => p,
            Ok(s) => {
                let q = spec_byte(opt, last, s, bytes.last());
                (p.0 + q.0, q.1)
            },
        }
    }
}

/// The end of the input: a line begun is ended as a line terminator ends
/// it (its terminator included).
pub open spec fn spec_end(opt: StreamOpt, st: StreamState) -> (Seq<u8>, Option<ErrorView>) {
    let eol = spec_eol_byte(opt.eol);
    if st.skipping {
        (seq![eol], None)
    } else if st.empty_line {
        (Seq::empty(), None)
    } else {
        let e = spec_enter(opt, st);
        let fin = spec_finish(opt, e.1);
        let ff = spec_fillers_fallbacks(opt, line_end_from(opt, fin.1 as int, st.curr_field as int));
        match ff.1 {
            Some(err) => (e.0 + fin.0 + ff.0, Some(err)),
            None => (e.0 + fin.0 + ff.0 + seq![eol], None),
        }
    }
}

/// What the stream prints for `bytes` from state `st`, input ended.
pub open spec fn spec_stream_from(opt: StreamOpt, last: Side, st: StreamState, bytes: Seq<u8>) -> (
    Seq<u8>,
    Option<ErrorView>,
) {
    let p = spec_feed(opt, last, st, bytes);
    match p.1 {
        Err(e) => (p.0, Some(e)),
        Ok(s) => {
            let q = spec_end(opt, s);
            (p.0 + q.0, q.1)
        },
    }
}

/// What the stream prints for the whole input.
pub open spec fn spec_stream(input: Seq<u8>, opt: StreamOpt, last: Side) -> (Seq<u8>, Option<ErrorView>) {
    spec_stream_from(opt, last, line_start(), input)
}

/// What the stream prints when the input arrives in chunks of `cap` bytes
/// from `pos` on, in state `st`; with no room for a byte nothing arrives.
pub open spec fn spec_stream_chunks(input: Seq<u8>, cap: int, opt: StreamOpt, last: Side, pos: int, st: StreamState) -> (
    Seq<u8>,
    Option<ErrorView>,
)
    decreases input.len() - pos,
{
    if cap < 1 {
        (Seq::empty(), None)
    } else if pos < 0 || pos >= input.len() {
        spec_end(opt, st)
    } else {
        let nf = if cap >= input.len() - pos {
            input.len() as int
        } else {
            pos + cap
        };
        let p = spec_feed(opt, last, st, input.subrange(pos, nf));
        match p.1 {
            Err(e) => (p.0, Some(e)),
            Ok(s) => {
                let r = spec_stream_chunks(input, cap, opt, last, nf, s);
                (p.0 + r.0, r.1)
            },
        }
    }
}

/// What the stream prints for `input` read in chunks of `cap` bytes.
pub open spec fn spec_cut_bytes_stream(input: Seq<u8>, cap: int, opt: StreamOpt, last: Side) -> (
    Seq<u8>,
    Option<ErrorView>,
) {
    spec_stream_chunks(input, cap, opt, last, 0, line_start())
}

/// Feeding two pieces one after the other is feeding them together.
pub proof fn lemma_feed_concat(opt: StreamOpt, last: Side, st: StreamState, a: Seq<u8>, b: Seq<u8>)
    ensures
        spec_feed(opt, last, st, a + b) == match spec_feed(opt, last, st, a).1 {
            Err(e) => spec_feed(opt, last, st, a),
            Ok(s) => (spec_feed(opt, last, st, a).0 + spec_feed(opt, last, s, b).0, spec_feed(opt, last, s, b).1),
        },
    decreases b.len(),
{
    if b.len() == 0 {
        assert(a + b =~= a);
        assert(spec_feed(opt, last, st, a).0 + Seq::<u8>::empty() =~= spec_feed(opt, last, st, a).0);
    } else {
        lemma_feed_concat(opt, last, st, a, b.drop_last());
        assert((a + b).drop_last() =~= a + b.drop_last());
        assert((a + b).last() == b.last());
        match spec_feed(opt, last, st, a).1 {
            Err(_) => {},
            Ok(s) => {
                let pa = spec_feed(opt, last, st, a).0;
                let pb = spec_feed(opt, last, s, b.drop_last());
                match pb.1 {
                    Err(_) => {},
                    Ok(s2) => {
                        let q = spec_byte(opt, last, s2, b.last());
                        assert(pa + pb.0 + q.0 =~= pa + (pb.0 + q.0));
                    },
                }
            },
        }
    }
}

/// After one byte the field is at most one further.
proof fn lemma_byte_field(opt: StreamOpt, last: Side, st: StreamState, c: u8)
    ensures
        spec_byte(opt, last, st, c).1 matches Ok(s) ==> s.curr_field <= st.curr_field + 1,
{
}

/// After some bytes the field is at most as many further.
proof fn lemma_feed_field(opt: StreamOpt, last: Side, st: StreamState, bytes: Seq<u8>)
    ensures
        spec_feed(opt, last, st, bytes).1 matches Ok(s) ==> s.curr_field <= st.curr_field + bytes.len(),
    decreases bytes.len(),
{
    if bytes.len() > 0 {
        lemma_feed_field(opt, last, st, bytes.drop_last());
        match spec_feed(opt, last, st, bytes.drop_last()).1 {
            Ok(s) => lemma_byte_field(opt, last, s, bytes.last()),
            Err(_) => {},
        }
    }
}

/// A piece holding no delimiter and no line terminator: its bytes are
/// printed when a bound covers the field, after the field is entered.
pub(crate) proof fn lemma_feed_plain(opt: StreamOpt, last: Side, st: StreamState, seg: Seq<u8>)
    requires
        seg.len() > 0,
        forall|i: int| 0 <= i < seg.len() ==> #[trigger] seg[i] != spec_eol_byte(opt.eol) && seg[i] != opt.delimiter,
    ensures
        spec_feed(opt, last, st, seg) == if st.skipping {
            (Seq::<u8>::empty(), Ok::<StreamState, ErrorView>(st))
        } else {
            let e = spec_enter(opt, st);
            (
                e.0 + if covers(opt, e.1.bof_idx as int, st.curr_field as int) {
                    seg
                } else {
                    Seq::empty()
                },
                Ok(e.1),
            )
        },
    decreases seg.len(),
{
    let c = seg.last();
    assert(c == seg[seg.len() - 1]);
    if seg.len() == 1 {
        assert(seg.drop_last() =~= Seq::<u8>::empty());
        assert(seg =~= seq![c]);
        assert(Seq::<u8>::empty() + spec_byte(opt, last, st, c).0 =~= spec_byte(opt, last, st, c).0);
    } else {
        let pre = seg.drop_last();
        assert forall|i: int| 0 <= i < pre.len() implies #[trigger] pre[i] != spec_eol_byte(opt.eol) && pre[i]
            != opt.delimiter by {
            assert(pre[i] == seg[i]);
        }
        lemma_feed_plain(opt, last, st, pre);
        if !st.skipping {
            let e = spec_enter(opt, st);
            assert(seg =~= pre + seq![c]);
            if covers(opt, e.1.bof_idx as int, st.curr_field as int) {
                assert(e.0 + pre + (Seq::<u8>::empty() + seq![c]) =~= e.0 + seg);
            } else {
                assert(e.0 + Seq::<u8>::empty() + (Seq::<u8>::empty() + Seq::<u8>::empty()) =~= e.0
                    + Seq::<u8>::empty());
            }
        } else {
            assert(Seq::<u8>::empty() + Seq::<u8>::empty() =~= Seq::<u8>::empty());
        }
    }
}

/// The delimiter or the replacement printed between fields.
fn out_delim(opt: &StreamOpt) -> (d: u8)
    ensures
        d == out_delimiter(*opt),
{
    match opt.replace_delimiter {
        Some(x) => x,
        None => opt.delimiter,
    }
}

/// Whether entry `idx` is a bound that covers field `f`; also whether it
/// ends there and whether it is the last one.
fn covers_exec(opt: &StreamOpt, idx: usize, f: usize) -> (r: (bool, bool, bool, bool))
    ensures
        r.0 == covers(*opt, idx as int, f as int),
        r.0 ==> r.1 == (opt.bounds.list@[idx as int]->Bound_0.r.value == f),
        r.0 ==> r.2 == (f > opt.bounds.list@[idx as int]->Bound_0.l.value),
        r.0 ==> r.3 == opt.bounds.list@[idx as int]->Bound_0.is_last,
{
    if idx < opt.bounds.list.list.len() {
        proof {
            assert(opt.bounds.list@[idx as int] == opt.bounds.list.list@[idx as int]@);
        }
        match &opt.bounds.list.list[idx] {
            BoundOrFiller::Bound(b) => {
                if b.l.value <= f && f <= b.r.value {
                    (true, b.r.value == f, f > b.l.value, b.is_last)
                } else {
                    (false, false, false, false)
                }
            },
            BoundOrFiller::Filler(_) => (false, false, false, false),
        }
    } else {
        (false, false, false, false)
    }
}

/// Enter the current field (see `spec_enter`).
fn enter(opt: &StreamOpt, st: &mut StreamState, stdout: &mut Vec<u8>)
    ensures
        final(stdout)@ == old(stdout)@ + spec_enter(*opt, *old(st)).0,
        *final(st) == spec_enter(*opt, *old(st)).1,
{
    if st.in_field {
        proof {
            assert(stdout@ =~= old(stdout)@ + Seq::<u8>::empty());
        }
        return;
    }
    let mut idx = st.bof_idx;
    let ghost o0 = stdout@;
    if idx < opt.bounds.list.list.len() {
        proof {
            assert(opt.bounds.list@[idx as int] == opt.bounds.list.list@[idx as int]@);
        }
        match &opt.bounds.list.list[idx] {
            BoundOrFiller::Filler(f) => {
                append_bytes(stdout, f.as_slice());
                idx = idx + 1;
            },
            BoundOrFiller::Bound(_) => {},
        }
    }
    let ghost o1 = stdout@;
    let (cov, _, inside, _) = covers_exec(opt, idx, st.curr_field);
    if cov && inside {
        stdout.push(out_delim(opt));
    }
    proof {
        let e = spec_enter(*opt, *old(st));
        if cov && inside {
            assert(stdout@ =~= o0 + (o1.subrange(o0.len() as int, o1.len() as int) + seq![out_delimiter(*opt)]));
        } else {
            assert(stdout@ =~= o0 + (o1.subrange(o0.len() as int, o1.len() as int) + Seq::<u8>::empty()));
        }
        assert(o1.subrange(o0.len() as int, o1.len() as int) =~= (if 0 <= old(st).bof_idx < opt.bounds.list@.len()
            && opt.bounds.list@[old(st).bof_idx as int] is Filler {
            opt.bounds.list@[old(st).bof_idx as int]->Filler_0
        } else {
            Seq::empty()
        }));
    }
    st.bof_idx = idx;
    st.in_field = true;
    st.empty_line = false;
}

/// End the current field (see `spec_finish`); the entry reached.
fn finish(opt: &StreamOpt, st: &StreamState, stdout: &mut Vec<u8>) -> (idx: usize)
    ensures
        final(stdout)@ == old(stdout)@ + spec_finish(*opt, *st).0,
        idx == spec_finish(*opt, *st).1,
{
    let (cov, ends, _, is_last) = covers_exec(opt, st.bof_idx, st.curr_field);
    if cov && ends {
        if opt.join && !is_last {
            stdout.push(out_delim(opt));
        } else {
            proof {
                assert(stdout@ =~= old(stdout)@ + Seq::<u8>::empty());
            }
        }
        let n = opt.bounds.list.list.len();
        proof {
            assert(st.bof_idx < opt.bounds.list@.len());
            assert(opt.bounds.list@.len() == n);
        }
        st.bof_idx + 1
    } else {
        proof {
            assert(stdout@ =~= old(stdout)@ + Seq::<u8>::empty());
        }
        st.bof_idx
    }
}

/// The entry from which the end of the line prints what is left (see
/// `line_end_from`).
fn end_from(opt: &StreamOpt, idx: usize, f: usize) -> (r: usize)
    ensures
        r == line_end_from(*opt, idx as int, f as int),
{
    let n = opt.bounds.list.list.len();
    if idx < n {
        proof {
            assert(opt.bounds.list@[idx as int] == opt.bounds.list.list@[idx as int]@);
        }
        match &opt.bounds.list.list[idx] {
            BoundOrFiller::Bound(b) => {
                if b.l.value <= f && f <= b.r.value && b.r.value == usize::MAX {
                    idx + 1
                } else {
                    idx
                }
            },
            BoundOrFiller::Filler(_) => idx,
        }
    } else {
        idx
    }
}

/// Process one byte (see `spec_byte`).
#[verifier::rlimit(40)]
#[verifier::spinoff_prover]
fn step_byte(opt: &StreamOpt, last: Side, st: &mut StreamState, c: u8, stdout: &mut Vec<u8>) -> (r: Result<
    (),
    TucError,
>)
    requires
        old(st).curr_field < usize::MAX,
    ensures
        final(stdout)@ == old(stdout)@ + spec_byte(*opt, last, *old(st), c).0,
        match r {
            Ok(_) => spec_byte(*opt, last, *old(st), c).1 == Ok::<StreamState, ErrorView>(*final(st)),
            Err(e) => spec_byte(*opt, last, *old(st), c).1 == Err::<StreamState, ErrorView>(e@),
        },
{
    let eol = opt.eol.byte();
    let ghost s0 = *st;
    let ghost o0 = stdout@;
    if st.skipping {
        if c == eol {
            stdout.push(eol);
            *st = StreamState { bof_idx: 0, curr_field: 0, in_field: false, skipping: false, empty_line: true };
        } else {
            proof {
                assert(stdout@ =~= o0 + Seq::<u8>::empty());
            }
        }
        return Ok(());
    }
    if c == eol && st.empty_line {
        stdout.push(eol);
        *st = StreamState { bof_idx: 0, curr_field: 0, in_field: false, skipping: false, empty_line: true };
        return Ok(());
    }
    let f = st.curr_field;
    enter(opt, st, stdout);
    let ghost o1 = stdout@;
    if c == eol || c == opt.delimiter {
        let i2 = finish(opt, st, stdout);
        let ghost o2 = stdout@;
        if c == eol || (!last.is_negative && last.value != usize::MAX && f == last.value) {
            let i3 = end_from(opt, i2, f);
            let res = print_filler_or_fallbacks(stdout, i3, opt);
            match res {
                Err(e) => {
                    proof {
                        assert(stdout@ =~= o0 + (o1.subrange(o0.len() as int, o1.len() as int) + o2.subrange(
                            o1.len() as int,
                            o2.len() as int,
                        ) + spec_fillers_fallbacks(*opt, i3 as int).0));
                    }
                    return Err(e);
                },
                Ok(_) => {},
            }
            if c == eol {
                stdout.push(eol);
                proof {
                    assert(stdout@ =~= o0 + (o1.subrange(o0.len() as int, o1.len() as int) + o2.subrange(
                        o1.len() as int,
                        o2.len() as int,
                    ) + spec_fillers_fallbacks(*opt, i3 as int).0 + seq![eol]));
                }
                *st = StreamState { bof_idx: 0, curr_field: 0, in_field: false, skipping: false, empty_line: true };
            } else {
                proof {
                    assert(stdout@ =~= o0 + (o1.subrange(o0.len() as int, o1.len() as int) + o2.subrange(
                        o1.len() as int,
                        o2.len() as int,
                    ) + spec_fillers_fallbacks(*opt, i3 as int).0));
                }
                st.bof_idx = i2;
                st.skipping = true;
            }
        } else {
            proof {
                assert(stdout@ =~= o0 + (o1.subrange(o0.len() as int, o1.len() as int) + o2.subrange(
                    o1.len() as int,
                    o2.len() as int,
                )));
            }
            *st = StreamState { bof_idx: i2, curr_field: f + 1, in_field: false, skipping: false, empty_line: false };
        }
    } else {
        let (cov, _, _, _) = covers_exec(opt, st.bof_idx, f);
        if cov {
            stdout.push(c);
            proof {
                assert(stdout@ =~= o0 + (o1.subrange(o0.len() as int, o1.len() as int) + seq![c]));
            }
        } else {
            proof {
                assert(stdout@ =~= o0 + (o1.subrange(o0.len() as int, o1.len() as int) + Seq::<u8>::empty()));
            }
        }
    }
    Ok(())
}

/// The positions found hold all the places of either byte.
proof fn lemma_positions2_complete(h: Seq<u8>, a: u8, b: u8, i: int, j: int)
    requires
        0 <= i <= j < h.len(),
        h[j] == a || h[j] == b,
    ensures
        positions2(h, a, b, i).contains(j),
    decreases j - i,
{
    if i == j {
        assert(positions2(h, a, b, i)[0] == j);
    } else {
        lemma_positions2_complete(h, a, b, i + 1, j);
        let r = positions2(h, a, b, i + 1);
        let w = choose|w: int| 0 <= w < r.len() && r[w] == j;
        if h[i] == a || h[i] == b {
            assert(positions2(h, a, b, i)[w + 1] == j);
        }
    }
}

/// Positions that grow step by step grow from any one to any later one.
proof fn lemma_increasing(ps: Seq<int>, i: int, j: int)
    requires
        0 <= i < j < ps.len(),
        forall|k: int| 0 <= k < ps.len() - 1 ==> #[trigger] ps[k] < ps[k + 1],
    ensures
        ps[i] < ps[j],
    decreases j - i,
{
    if j > i + 1 {
        lemma_increasing(ps, i, j - 1);
        assert(ps[j - 1] < ps[j]);
    }
}

/// Feed a piece holding no delimiter and no line terminator (see
/// `lemma_feed_plain`).
fn feed_plain(opt: &StreamOpt, last: Side, st: &mut StreamState, seg: &[u8], stdout: &mut Vec<u8>)
    requires
        seg@.len() > 0,
        forall|i: int| 0 <= i < seg@.len() ==> #[trigger] seg@[i] != spec_eol_byte(opt.eol) && seg@[i] != opt.delimiter,
    ensures
        final(stdout)@ == old(stdout)@ + spec_feed(*opt, last, *old(st), seg@).0,
        spec_feed(*opt, last, *old(st), seg@).1 == Ok::<StreamState, ErrorView>(*final(st)),
        final(st).curr_field == old(st).curr_field,
{
    proof {
        lemma_feed_plain(*opt, last, *old(st), seg@);
    }
    if st.skipping {
        proof {
            assert(stdout@ =~= old(stdout)@ + Seq::<u8>::empty());
        }
        return;
    }
    enter(opt, st, stdout);
    let ghost o1 = stdout@;
    let (cov, _, _, _) = covers_exec(opt, st.bof_idx, st.curr_field);
    if cov {
        append_bytes(stdout, seg);
        proof {
            assert(stdout@ =~= old(stdout)@ + (o1.subrange(old(stdout)@.len() as int, o1.len() as int) + seg@));
        }
    } else {
        proof {
            assert(stdout@ =~= old(stdout)@ + (o1.subrange(old(stdout)@.len() as int, o1.len() as int)
                + Seq::<u8>::empty()));
        }
    }
}

/// Between two consecutive positions of the delimiter or the line
/// terminator (or after the last one, up to the end) no byte is either.
proof fn lemma_no_special_between(h: Seq<u8>, d: u8, eol: u8, k: int, pos: int)
    requires
        0 <= k <= positions2(h, d, eol, 0).len(),
        k == 0 ==> pos == 0,
        k > 0 ==> pos == positions2(h, d, eol, 0)[k - 1] + 1,
    ensures
        forall|i: int|
            pos <= i < (if k < positions2(h, d, eol, 0).len() {
                positions2(h, d, eol, 0)[k]
            } else {
                h.len() as int
            }) ==> #[trigger] h[i] != d && h[i] != eol,
{
    let pv = positions2(h, d, eol, 0);
    lemma_positions2(h, d, eol, 0);
    let bound = if k < pv.len() {
        pv[k]
    } else {
        h.len() as int
    };
    assert forall|i: int| pos <= i < bound implies #[trigger] h[i] != d && h[i] != eol by {
        if h[i] == d || h[i] == eol {
            if 0 <= i {
                lemma_positions2_complete(h, d, eol, 0, i);
                let m = choose|m: int| 0 <= m < pv.len() && pv[m] == i;
                if m < k - 1 {
                    lemma_increasing(pv, m, k - 1);
                } else if m > k {
                    lemma_increasing(pv, k, m);
                }
            }
        }
    }
}

/// Feed a piece whose bytes, but for the last, are neither the delimiter
/// nor the line terminator (see `spec_feed`).
fn feed_piece(opt: &StreamOpt, last: Side, st: &mut StreamState, piece: &[u8], stdout: &mut Vec<u8>) -> (r: Result<
    (),
    TucError,
>)
    requires
        piece@.len() > 0,
        old(st).curr_field < usize::MAX,
        forall|i: int|
            0 <= i < piece@.len() - 1 ==> #[trigger] piece@[i] != spec_eol_byte(opt.eol) && piece@[i] != opt.delimiter,
    ensures
        final(stdout)@ == old(stdout)@ + spec_feed(*opt, last, *old(st), piece@).0,
        match r {
            Ok(_) => spec_feed(*opt, last, *old(st), piece@).1 == Ok::<StreamState, ErrorView>(*final(st)),
            Err(e) => spec_feed(*opt, last, *old(st), piece@).1 == Err::<StreamState, ErrorView>(e@),
        },
{
    let n = piece.len();
    let ghost s0 = *st;
    let ghost o0 = stdout@;
    let ghost head = piece@.drop_last();
    if n > 1 {
        let seg = &piece[0..n - 1];
        proof {
            assert(seg@ =~= head);
        }
        feed_plain(opt, last, st, seg, stdout);
    } else {
        proof {
            assert(head =~= Seq::<u8>::empty());
            assert(stdout@ =~= o0 + Seq::<u8>::empty());
        }
    }
    let ghost o1 = stdout@;
    let ghost s1 = *st;
    proof {
        assert(head == piece@.drop_last());
        assert(spec_feed(*opt, last, s0, head).1 == Ok::<StreamState, ErrorView>(s1));
        assert(o1 == o0 + spec_feed(*opt, last, s0, head).0);
    }
    let res = step_byte(opt, last, st, piece[n - 1], stdout);
    proof {
        assert(piece@.last() == piece@[n - 1]);
        let q = spec_byte(*opt, last, s1, piece@.last());
        assert(spec_feed(*opt, last, s0, piece@) == (spec_feed(*opt, last, s0, head).0 + q.0, q.1));
        assert(stdout@ =~= o0 + (spec_feed(*opt, last, s0, head).0 + q.0));
    }
    res
}

/// Process one chunk of the input in state `st` (see `spec_feed`): the
/// state after it, or the error it stops on. `last` is the right side of
/// the last bound.
#[verifier::rlimit(40)]
pub fn stream_chunk(opt: &StreamOpt, last: Side, st: &StreamState, chunk: &[u8], stdout: &mut Vec<u8>) -> (r:
    Result<StreamState, TucError>)
    requires
        st.curr_field + chunk@.len() < usize::MAX,
    ensures
        final(stdout)@ == old(stdout)@ + spec_feed(*opt, last, *st, chunk@).0,
        match r {
            Ok(s) => spec_feed(*opt, last, *st, chunk@).1 == Ok::<StreamState, ErrorView>(s),
            Err(e) => spec_feed(*opt, last, *st, chunk@).1 == Err::<StreamState, ErrorView>(e@),
        },
{
    let eol = opt.eol.byte();
    let d = opt.delimiter;
    let ps = memchr2_find_all(d, eol, chunk);
    let ghost pv = ints(ps@);
    proof {
        lemma_positions2(chunk@, d, eol, 0);
    }
    let len = chunk.len();
    let n = ps.len();
    let mut cur = *st;
    let mut pos: usize = 0;
    let mut k: usize = 0;
    let ghost o0 = stdout@;
    proof {
        assert(chunk@.subrange(0, 0) =~= Seq::<u8>::empty());
        assert(stdout@ =~= o0 + Seq::<u8>::empty());
    }
    while k < n
        invariant
            n == ps@.len(),
            pv == ints(ps@),
            pv == positions2(chunk@, d, eol, 0),
            len == chunk@.len(),
            d == opt.delimiter,
            eol == spec_eol_byte(opt.eol),
            st.curr_field + len < usize::MAX,
            k <= n,
            pos <= len,
            k == 0 ==> pos == 0,
            k > 0 ==> pos == pv[k - 1] + 1,
            forall|m: int| 0 <= m < pv.len() ==> 0 <= #[trigger] pv[m] < len,
            forall|m: int| 0 <= m < pv.len() - 1 ==> #[trigger] pv[m] < pv[m + 1],
            stdout@ == o0 + spec_feed(*opt, last, *st, chunk@.subrange(0, pos as int)).0,
            spec_feed(*opt, last, *st, chunk@.subrange(0, pos as int)).1 == Ok::<StreamState, ErrorView>(cur),
            o0 == old(stdout)@,
        decreases n - k,
    {
        let p = ps[k];
        proof {
            assert(pv[k as int] == p as int);
            if k > 0 {
                assert(pv[k - 1] < pv[k as int]);
            }
            lemma_no_special_between(chunk@, d, eol, k as int, pos as int);
            lemma_feed_field(*opt, last, *st, chunk@.subrange(0, pos as int));
        }
        let piece = &chunk[pos..p + 1];
        proof {
            assert forall|i: int| 0 <= i < piece@.len() - 1 implies #[trigger] piece@[i] != spec_eol_byte(opt.eol)
                && piece@[i] != opt.delimiter by {
                assert(piece@[i] == chunk@[pos + i]);
            }
        }
        let res = feed_piece(opt, last, &mut cur, piece, stdout);
        proof {
            lemma_feed_concat(*opt, last, *st, chunk@.subrange(0, pos as int), piece@);
            assert(chunk@.subrange(0, pos as int) + piece@ =~= chunk@.subrange(0, p + 1));
        }
        match res {
            Err(e) => {
                proof {
                    let pre1 = chunk@.subrange(0, p + 1);
                    lemma_feed_concat(*opt, last, *st, pre1, chunk@.subrange(p + 1, len as int));
                    assert(pre1 + chunk@.subrange(p + 1, len as int) =~= chunk@);
                }
                return Err(e);
            },
            Ok(_) => {},
        }
        pos = p + 1;
        k = k + 1;
    }
    proof {
        lemma_no_special_between(chunk@, d, eol, k as int, pos as int);
    }
    if pos < len {
        let seg = &chunk[pos..len];
        proof {
            assert forall|i: int| 0 <= i < seg@.len() implies #[trigger] seg@[i] != spec_eol_byte(opt.eol)
                && seg@[i] != opt.delimiter by {
                assert(seg@[i] == chunk@[pos + i]);
            }
        }
        feed_plain(opt, last, &mut cur, seg, stdout);
        proof {
            lemma_feed_concat(*opt, last, *st, chunk@.subrange(0, pos as int), seg@);
            assert(chunk@.subrange(0, pos as int) + seg@ =~= chunk@);
        }
    } else {
        proof {
            assert(chunk@.subrange(0, pos as int) =~= chunk@);
        }
    }
    Ok(cur)
}

/// End the input in state `st` (see `spec_end`).
pub fn end_of_input(opt: &StreamOpt, st: &StreamState, stdout: &mut Vec<u8>) -> (r: Result<(), TucError>)
    ensures
        final(stdout)@ == old(stdout)@ + spec_end(*opt, *st).0,
        match r {
            Ok(_) => spec_end(*opt, *st).1 is None,
            Err(e) => spec_end(*opt, *st).1 == Some(e@),
        },
{
    let eol = opt.eol.byte();
    if st.skipping {
        stdout.push(eol);
        return Ok(());
    }
    if st.empty_line {
        proof {
            assert(stdout@ =~= old(stdout)@ + Seq::<u8>::empty());
        }
        return Ok(());
    }
    let ghost o0 = stdout@;
    let mut s = *st;
    enter(opt, &mut s, stdout);
    let ghost o1 = stdout@;
    let i2 = finish(opt, &s, stdout);
    let ghost o2 = stdout@;
    let i3 = end_from(opt, i2, st.curr_field);
    match print_filler_or_fallbacks(stdout, i3, opt) {
        Err(e) => {
            proof {
                assert(stdout@ =~= o0 + (o1.subrange(o0.len() as int, o1.len() as int) + o2.subrange(
                    o1.len() as int,
                    o2.len() as int,
                ) + spec_fillers_fallbacks(*opt, i3 as int).0));
            }
            return Err(e);
        },
        Ok(_) => {},
    }
    stdout.push(eol);
    proof {
        assert(stdout@ =~= o0 + (o1.subrange(o0.len() as int, o1.len() as int) + o2.subrange(
            o1.len() as int,
            o2.len() as int,
        ) + spec_fillers_fallbacks(*opt, i3 as int).0 + seq![eol]));
    }
    Ok(())
}

/// Cut the fields of `input` as the stream does when it reads it in chunks
/// of `capacity` bytes (see `spec_cut_bytes_stream`): each chunk is
/// processed with `stream_chunk`, then the input is ended with
/// `end_of_input`. `last_interesting_field` is the right side of the last
/// bound.
pub fn cut_bytes_stream(
    input: &[u8],
    capacity: usize,
    stdout: &mut Vec<u8>,
    opt: &StreamOpt,
    last_interesting_field: Side,
) -> (r: Result<(), TucError>)
    requires
        input@.len() < usize::MAX,
    ensures
        final(stdout)@ == old(stdout)@ + spec_cut_bytes_stream(
            input@,
            capacity as int,
            *opt,
            last_interesting_field,
        ).0,
        match r {
            Ok(_) => spec_cut_bytes_stream(input@, capacity as int, *opt, last_interesting_field).1 is None,
            Err(e) => spec_cut_bytes_stream(input@, capacity as int, *opt, last_interesting_field).1 == Some(
                e@,
            ),
        },
{
    let last = last_interesting_field;
    if capacity == 0 {
        proof {
            assert(stdout@ =~= old(stdout)@ + Seq::<u8>::empty());
        }
        return Ok(());
    }
    let ghost total = spec_cut_bytes_stream(input@, capacity as int, *opt, last);
    let ghost out0 = stdout@;
    let len = input.len();
    let mut pos: usize = 0;
    let mut st = StreamState { bof_idx: 0, curr_field: 0, in_field: false, skipping: false, empty_line: true };
    proof {
        assert(stdout@.subrange(out0.len() as int, stdout@.len() as int) =~= Seq::<u8>::empty());
        assert(total.0 =~= Seq::<u8>::empty() + total.0);
    }
    loop
        invariant
            pos <= len,
            len == input@.len(),
            len < usize::MAX,
            capacity >= 1,
            st.curr_field <= pos,
            last == last_interesting_field,
            total == spec_cut_bytes_stream(input@, capacity as int, *opt, last),
            ({
                let rest = spec_stream_chunks(input@, capacity as int, *opt, last, pos as int, st);
                &&& total.0 == stdout@.subrange(out0.len() as int, stdout@.len() as int) + rest.0
                &&& total.1 == rest.1
            }),
            stdout@.len() >= out0.len(),
            stdout@.subrange(0, out0.len() as int) == out0,
            out0 == old(stdout)@,
        decreases len - pos,
    {
        let ghost printed = stdout@.subrange(out0.len() as int, stdout@.len() as int);
        if pos == len {
            let res = end_of_input(opt, &st, stdout);
            proof {
                assert(stdout@.subrange(0, out0.len() as int) =~= out0);
                assert(stdout@ =~= old(stdout)@ + total.0);
            }
            return res;
        }
        let nf = if capacity >= len - pos {
            len
        } else {
            pos + capacity
        };
        let chunk = &input[pos..nf];
        proof {
            assert(chunk@ == input@.subrange(pos as int, nf as int));
            lemma_feed_field(*opt, last, st, chunk@);
        }
        let res = stream_chunk(opt, last, &st, chunk, stdout);
        proof {
            assert(stdout@.subrange(0, out0.len() as int) =~= out0);
            assert(stdout@.subrange(out0.len() as int, stdout@.len() as int) =~= printed + spec_feed(
                *opt,
                last,
                st,
                chunk@,
            ).0);
        }
        match res {
            Err(e) => {
                proof {
                    assert(stdout@ =~= old(stdout)@ + total.0);
                }
                return Err(e);
            },
            Ok(s) => {
                proof {
                    let r = spec_stream_chunks(input@, capacity as int, *opt, last, nf as int, s);
                    assert(printed + spec_feed(*opt, last, st, chunk@).0 + r.0 =~= printed + (spec_feed(
                        *opt,
                        last,
                        st,
                        chunk@,
                    ).0 + r.0));
                }
                st = s;
                pos = nf;
            },
        }
    }
}

/// Cut the fields of `input` with fixed memory, reading it in chunks of
/// `capacity` bytes (see `cut_bytes_stream`); the last interesting field
/// is where the last bound ends.
pub fn read_and_cut_bytes_stream(input: &[u8], capacity: usize, stdout: &mut Vec<u8>, opt: &StreamOpt) -> (r:
    Result<(), TucError>)
    requires
        opt.bounds.wf(),
        input@.len() < usize::MAX,
    ensures
        ({
            let last = opt.bounds.list@[opt.bounds.last_bound_idx as int]->Bound_0.r;
            &&& final(stdout)@ == old(stdout)@ + spec_cut_bytes_stream(input@, capacity as int, *opt, last).0
            &&& match r {
                Ok(_) => spec_cut_bytes_stream(input@, capacity as int, *opt, last).1 is None,
                Err(e) => spec_cut_bytes_stream(input@, capacity as int, *opt, last).1 == Some(e@),
            }
        }),
{
    let last = *opt.bounds.get_last_bound().r();
    cut_bytes_stream(input, capacity, stdout, opt, last)
}

/// Reading in chunks is reading the whole: from any position, whatever the
/// chunk size (of at least one byte), the stream prints what it prints for
/// the rest of the input at once.
proof fn lemma_chunks_are_the_stream(input: Seq<u8>, cap: int, opt: StreamOpt, last: Side, pos: int, st: StreamState)
    requires
        cap >= 1,
        0 <= pos <= input.len(),
    ensures
        spec_stream_chunks(input, cap, opt, last, pos, st) == spec_stream_from(
            opt,
            last,
            st,
            input.subrange(pos, input.len() as int),
        ),
    decreases input.len() - pos,
{
    let len = input.len() as int;
    if pos == len {
        assert(input.subrange(pos, len) =~= Seq::<u8>::empty());
        assert(Seq::<u8>::empty() + spec_end(opt, st).0 =~= spec_end(opt, st).0);
    } else {
        let nf = if cap >= len - pos {
            len
        } else {
            pos + cap
        };
        let a = input.subrange(pos, nf);
        let b = input.subrange(nf, len);
        assert(a + b =~= input.subrange(pos, len));
        lemma_feed_concat(opt, last, st, a, b);
        match spec_feed(opt, last, st, a).1 {
            Err(_) => {},
            Ok(s) => {
                lemma_chunks_are_the_stream(input, cap, opt, last, nf, s);
                let pa = spec_feed(opt, last, st, a).0;
                let pb = spec_feed(opt, last, s, b);
                match pb.1 {
                    Err(_) => {},
                    Ok(s2) => {
                        assert(pa + (pb.0 + spec_end(opt, s2).0) =~= pa + pb.0 + spec_end(opt, s2).0);
                    },
                }
            },
        }
    }
}

/// The chunk size does not change what the stream prints: read in chunks
/// of any size of at least one byte, the input gives what it gives read at
/// once.
pub proof fn law_chunk_size_does_not_change_the_stream(input: Seq<u8>, c1: int, c2: int, opt: StreamOpt, last: Side)
    requires
        c1 >= 1,
        c2 >= 1,
    ensures
        spec_cut_bytes_stream(input, c1, opt, last) == spec_stream(input, opt, last),
        spec_cut_bytes_stream(input, c1, opt, last) == spec_cut_bytes_stream(input, c2, opt, last),
{
    lemma_chunks_are_the_stream(input, c1, opt, last, 0, line_start());
    lemma_chunks_are_the_stream(input, c2, opt, last, 0, line_start());
    assert(input.subrange(0, input.len() as int) =~= input);
}
/// A byte other than the line terminator leaves the stream skipping the
/// line, or inside a line begun.
proof fn lemma_byte_begins_line(opt: StreamOpt, last: Side, st: StreamState, c: u8)
    requires
        c != spec_eol_byte(opt.eol),
        st.in_field ==> !st.empty_line,
    ensures
        spec_byte(opt, last, st, c).1 matches Ok(t) ==> (t.skipping || !t.empty_line),
{
}

/// A field begun is never on an empty line, from any state the stream
/// reaches.
proof fn lemma_feed_in_field(opt: StreamOpt, last: Side, st: StreamState, bytes: Seq<u8>)
    requires
        st.in_field ==> !st.empty_line,
    ensures
        spec_feed(opt, last, st, bytes).1 matches Ok(t) ==> (t.in_field ==> !t.empty_line),
    decreases bytes.len(),
{
    if bytes.len() > 0 {
        lemma_feed_in_field(opt, last, st, bytes.drop_last());
    }
}

/// The input ends as a line terminator ends it: an input whose last line
/// has no terminator prints what it prints with one.
pub proof fn law_missing_terminator_is_added(input: Seq<u8>, opt: StreamOpt, last: Side)
    requires
        input.len() > 0,
        input.last() != spec_eol_byte(opt.eol),
    ensures
        spec_stream(input, opt, last) == spec_stream(input.push(spec_eol_byte(opt.eol)), opt, last),
{
    let eol = spec_eol_byte(opt.eol);
    let p = spec_feed(opt, last, line_start(), input);
    lemma_feed_concat(opt, last, line_start(), input, seq![eol]);
    assert(input + seq![eol] =~= input.push(eol));
    assert(input.drop_last() + seq![input.last()] =~= input);
    let pre = spec_feed(opt, last, line_start(), input.drop_last());
    lemma_feed_in_field(opt, last, line_start(), input.drop_last());
    match pre.1 {
        Err(_) => {},
        Ok(s) => {
            lemma_byte_begins_line(opt, last, s, input.last());
        },
    }
    match p.1 {
        Err(_) => {},
        Ok(s) => {
            assert(seq![eol].drop_last() =~= Seq::<u8>::empty());
            assert(seq![eol].last() == eol);
            assert(spec_feed(opt, last, s, Seq::<u8>::empty()) == (Seq::<u8>::empty(), Ok::<StreamState, ErrorView>(s)));
            let q = spec_byte(opt, last, s, eol);
            assert(spec_feed(opt, last, s, seq![eol]) == (Seq::<u8>::empty() + q.0, q.1));
            assert(Seq::<u8>::empty() + q.0 =~= q.0);
            if s.skipping {
                assert(p.0 + q.0 + Seq::<u8>::empty() =~= p.0 + spec_end(opt, s).0);
            } else {
                let e = spec_enter(opt, s);
                let fin = spec_finish(opt, e.1);
                let ff = spec_fillers_fallbacks(opt, line_end_from(opt, fin.1 as int, s.curr_field as int));
                match ff.1 {
                    Some(_) => {},
                    None => {
                        assert(p.0 + q.0 + Seq::<u8>::empty() =~= p.0 + spec_end(opt, s).0);
                    },
                }
            }
        },
    }
}

} // verus!
