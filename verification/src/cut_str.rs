use crate::finders::{ranges_view, DelimiterFinder};
use crate::json::{json_encoded, json_string};
use crate::finders::{FixedFinder, FixedFinderRev, FixedGreedyFinder, FixedGreedyFinderRev, RegexFinder};
use crate::options::{spec_eol_byte, BoundsType, EOL, Opt, ReplaceDelimiterFn, Trim};
use crate::pattern::{regex_find, regex_replace, CompiledRegex};
use crate::plan::{
    extract_every_field, extract_fields_using_negative_indices, extract_fields_using_pos_indices,
    fields_rev, needs_num_fields, reverse_ranges, spec_fill_fields, spec_get_field, strictly_increasing,
    ExtractMode, FieldPlan, no_plan_for, plan_for, sides_fit,
};
use crate::search::{bytes_find_all, bytes_replace, find_fwd, ints, lemma_find_fwd_wf, occurs_at, spec_replace, step};
use crate::side::{ErrorView, TucError};
use crate::text::{append_bytes, find_byte, first_index_of, lossy_utf8, string_from_bytes};
use crate::userbounds::{BofView, BoundOrFiller, UserBounds, UserBoundsView};
use crate::userboundslist::{bofs_view, complement_list, has_bound, mark_last, unpack_list, UserBoundsList};
use vstd::prelude::*;
use vstd::utf8::encode_utf8;

verus! {

/// How many bytes repetitions of `d` take at the start of `b`.
pub open spec fn lead_trim(b: Seq<u8>, d: Seq<u8>) -> int
    decreases b.len(),
{
    if d.len() > 0 && b.len() >= d.len() && b.subrange(0, d.len() as int) == d {
        d.len() + lead_trim(b.subrange(d.len() as int, b.len() as int), d)
    } else {
        0
    }
}

/// How many bytes repetitions of `d` take at the end of `b`.
pub open spec fn trail_trim(b: Seq<u8>, d: Seq<u8>) -> int
    decreases b.len(),
{
    if d.len() > 0 && b.len() >= d.len() && b.subrange(b.len() - d.len(), b.len() as int) == d {
        d.len() + trail_trim(b.subrange(0, b.len() - d.len()), d)
    } else {
        0
    }
}

/// `b` without the repetitions of `d` at the ends that `kind` names.
pub open spec fn spec_trim(b: Seq<u8>, kind: Trim, d: Seq<u8>) -> Seq<u8> {
    match kind {
        Trim::Left => b.subrange(lead_trim(b, d), b.len() as int),
        Trim::Right => b.subrange(0, b.len() - trail_trim(b, d)),
        Trim::Both => {
            let rest = b.subrange(lead_trim(b, d), b.len() as int);
            rest.subrange(0, rest.len() - trail_trim(rest, d))
        },
    }
}

proof fn lemma_lead_trim_bound(b: Seq<u8>, d: Seq<u8>)
    ensures
        0 <= lead_trim(b, d) <= b.len(),
    decreases b.len(),
{
    if d.len() > 0 && b.len() >= d.len() && b.subrange(0, d.len() as int) == d {
        lemma_lead_trim_bound(b.subrange(d.len() as int, b.len() as int), d);
    }
}

proof fn lemma_trail_trim_bound(b: Seq<u8>, d: Seq<u8>)
    ensures
        0 <= trail_trim(b, d) <= b.len(),
    decreases b.len(),
{
    if d.len() > 0 && b.len() >= d.len() && b.subrange(b.len() - d.len(), b.len() as int) == d {
        lemma_trail_trim_bound(b.subrange(0, b.len() - d.len()), d);
    }
}

/// Whether `d` occurs in `b` at `at`.
fn occurs_at_exec(b: &[u8], at: usize, d: &[u8]) -> (r: bool)
    requires
        at <= b@.len(),
    ensures
        r == (at + d@.len() <= b@.len() && b@.subrange(at as int, at + d@.len()) == d@),
{
    if d.len() > b.len() - at {
        return false;
    }
    let mut k: usize = 0;
    while k < d.len()
        invariant
            at + d@.len() <= b@.len(),
            b@.len() == b.len(),
            k <= d@.len(),
            forall|j: int| 0 <= j < k ==> b@[at + j] == d@[j],
        decreases d.len() - k,
    {
        proof {
            assert(at + k < b@.len());
        }
        if b[at + k] != d[k] {
            proof {
                assert(b@.subrange(at as int, at + d@.len())[k as int] != d@[k as int]);
            }
            return false;
        }
        k = k + 1;
    }
    proof {
        assert(b@.subrange(at as int, at + d@.len()) =~= d@);
    }
    true
}

/// Where the text starts once repetitions of `d` are cut from the start of
/// `b[from..to]`.
fn lead_end(b: &[u8], from: usize, to: usize, d: &[u8]) -> (r: usize)
    requires
        from <= to <= b@.len(),
        d@.len() > 0,
    ensures
        r == from + lead_trim(b@.subrange(from as int, to as int), d@),
{
    let mut idx = from;
    while idx < to && d.len() <= to - idx && occurs_at_exec(b, idx, d)
        invariant
            from <= idx <= to <= b@.len(),
            d@.len() > 0,
            lead_trim(b@.subrange(from as int, to as int), d@) == (idx - from) + lead_trim(
                b@.subrange(idx as int, to as int),
                d@,
            ),
        decreases to - idx,
    {
        proof {
            let rest = b@.subrange(idx as int, to as int);
            assert(rest.subrange(0, d@.len() as int) =~= b@.subrange(idx as int, idx + d@.len()));
            assert(rest.subrange(d@.len() as int, rest.len() as int) =~= b@.subrange(
                idx + d@.len(),
                to as int,
            ));
        }
        idx = idx + d.len();
    }
    proof {
        let rest = b@.subrange(idx as int, to as int);
        if idx < to && d@.len() <= to - idx {
            assert(rest.subrange(0, d@.len() as int) =~= b@.subrange(idx as int, idx + d@.len()));
        }
    }
    idx
}

/// Where the text ends once repetitions of `d` are cut from the end of
/// `b[from..to]`.
fn trail_start(b: &[u8], from: usize, to: usize, d: &[u8]) -> (r: usize)
    requires
        from <= to <= b@.len(),
        d@.len() > 0,
    ensures
        r == to - trail_trim(b@.subrange(from as int, to as int), d@),
{
    let mut r = to;
    while r > from && d.len() <= r - from && occurs_at_exec(b, r - d.len(), d)
        invariant
            from <= r <= to <= b@.len(),
            d@.len() > 0,
            trail_trim(b@.subrange(from as int, to as int), d@) == (to - r) + trail_trim(
                b@.subrange(from as int, r as int),
                d@,
            ),
        decreases r - from,
    {
        proof {
            let rest = b@.subrange(from as int, r as int);
            assert(rest.subrange(rest.len() - d@.len(), rest.len() as int) =~= b@.subrange(
                r - d@.len(),
                r as int,
            ));
            assert(rest.subrange(0, rest.len() - d@.len()) =~= b@.subrange(from as int, r - d@.len()));
        }
        r = r - d.len();
    }
    proof {
        let rest = b@.subrange(from as int, r as int);
        if r > from && d@.len() <= r - from {
            assert(rest.subrange(rest.len() - d@.len(), rest.len() as int) =~= b@.subrange(
                r - d@.len(),
                r as int,
            ));
        }
    }
    r
}

/// Cut the repetitions of `delimiter` at the ends of `buffer` that
/// `trim_kind` names.
pub fn trim<'a>(buffer: &'a [u8], trim_kind: &Trim, delimiter: &[u8]) -> (r: &'a [u8])
    requires
        delimiter@.len() > 0,
    ensures
        r@ == spec_trim(buffer@, *trim_kind, delimiter@),
{
    let len = buffer.len();
    proof {
        assert(buffer@.subrange(0, len as int) =~= buffer@);
    }
    match trim_kind {
        Trim::Both => {
            let idx = lead_end(buffer, 0, len, delimiter);
            proof {
                lemma_lead_trim_bound(buffer@, delimiter@);
            }
            let r_idx = trail_start(buffer, idx, len, delimiter);
            proof {
                lemma_trail_trim_bound(buffer@.subrange(idx as int, len as int), delimiter@);
                assert(buffer@.subrange(idx as int, r_idx as int) =~= spec_trim(
                    buffer@,
                    *trim_kind,
                    delimiter@,
                ));
            }
            &buffer[idx..r_idx]
        },
        Trim::Left => {
            let idx = lead_end(buffer, 0, len, delimiter);
            proof {
                lemma_lead_trim_bound(buffer@, delimiter@);
            }
            &buffer[idx..len]
        },
        Trim::Right => {
            let r_idx = trail_start(buffer, 0, len, delimiter);
            proof {
                lemma_trail_trim_bound(buffer@, delimiter@);
            }
            &buffer[0..r_idx]
        },
    }
}

/// `b` without the first match of a regular expression when it is at the
/// start, and without the last match when it is at the end, as `kind`
/// names; with both, a single match that covers the whole line leaves
/// nothing.
pub open spec fn spec_trim_regex(b: Seq<u8>, kind: Trim, ms: Seq<(int, int)>) -> Seq<u8> {
    let start = if kind != Trim::Right && ms.len() > 0 && ms[0].0 == 0 {
        ms[0].1
    } else {
        0
    };
    let end = if kind != Trim::Left && ms.len() > 0 && ms.last().1 == b.len() {
        ms.last().0
    } else {
        b.len() as int
    };
    b.subrange(start, if end < start {
        start
    } else {
        end
    })
}

/// A match after the first one starts where the first one ends, or later.
proof fn lemma_matches_after_first(ms: Seq<(int, int)>, len: int, k: int)
    requires
        crate::pattern::matches_wf(ms, len),
        0 < k < ms.len(),
    ensures
        ms[k].0 >= ms[0].1,
    decreases k,
{
    if k > 1 {
        lemma_matches_after_first(ms, len, k - 1);
        assert(ms[k - 1].1 >= ms[k - 1].0);
    }
}

/// Cut the matches of `re` at the ends of `line` that `trim_kind` names.
pub fn trim_regex<'a>(line: &'a [u8], trim_kind: &Trim, re: &CompiledRegex) -> (r: &'a [u8])
    ensures
        r@ == spec_trim_regex(line@, *trim_kind, regex_find(re@, line@)),
{
    let ms = re.find_all(line);
    let ghost mv = crate::pattern::pairs_view(ms@);
    let n = ms.len();
    let mut idx_start: usize = 0;
    let mut idx_end: usize = line.len();
    let is_right = match trim_kind {
        Trim::Right => true,
        _ => false,
    };
    let is_left = match trim_kind {
        Trim::Left => true,
        _ => false,
    };
    proof {
        if n > 0 {
            assert(mv[0] == (ms@[0].0 as int, ms@[0].1 as int));
            assert(mv.last() == (ms@[n - 1].0 as int, ms@[n - 1].1 as int));
            if n > 1 {
                lemma_matches_after_first(mv, line@.len() as int, n - 1);
            }
        }
    }
    if !is_right && n > 0 && ms[0].0 == 0 {
        idx_start = ms[0].1;
    }
    if !is_left && n > 0 && ms[n - 1].1 == line.len() {
        idx_end = ms[n - 1].0;
    }
    if idx_end < idx_start {
        idx_end = idx_start;
    }
    proof {
        assert(is_right == (*trim_kind == Trim::Right));
        assert(is_left == (*trim_kind == Trim::Left));
    }
    &line[idx_start..idx_end]
}

/// `line` with each run of `d` cut to one `d` (an empty field between two
/// delimiters disappears), from `prev` on, given the occurrences `ps` of `d`.
#[verifier::opaque]
pub open spec fn spec_compress_from(line: Seq<u8>, d: Seq<u8>, ps: Seq<int>, prev: int) -> Seq<u8>
    decreases ps.len(),
{
    if ps.len() == 0 {
        if prev < line.len() {
            line.subrange(prev, line.len() as int)
        } else {
            Seq::empty()
        }
    } else {
        let idx = ps[0];
        let part = if idx == 0 {
            d
        } else if idx > prev {
            line.subrange(prev, idx) + d
        } else {
            Seq::empty()
        };
        part + spec_compress_from(line, d, ps.drop_first(), idx + d.len())
    }
}

/// `line` with each run of the delimiter `d` cut to one.
pub open spec fn spec_compress(line: Seq<u8>, d: Seq<u8>) -> Seq<u8> {
    spec_compress_from(line, d, find_fwd(line, d, 0), 0)
}

/// What one occurrence of the delimiter at `idx` adds when the previous one
/// ended at `prev`: the text in between and one delimiter.
pub open spec fn compress_piece(line: Seq<u8>, d: Seq<u8>, idx: int, prev: int) -> Seq<u8> {
    if idx == 0 {
        d
    } else if idx > prev {
        line.subrange(prev, idx) + d
    } else {
        Seq::empty()
    }
}

/// Write what one occurrence of the delimiter adds to the compressed line.
fn push_compressed_piece(line: &[u8], delimiter: &[u8], idx: usize, prev_idx: usize, output: &mut Vec<u8>)
    requires
        idx <= line@.len(),
    ensures
        final(output)@ == old(output)@ + compress_piece(line@, delimiter@, idx as int, prev_idx as int),
{
    if idx == 0 {
        append_bytes(output, delimiter);
    } else if idx > prev_idx {
        append_bytes(output, &line[prev_idx..idx]);
        append_bytes(output, delimiter);
        proof {
            assert(output@ =~= old(output)@ + compress_piece(line@, delimiter@, idx as int, prev_idx as int));
        }
    }
}

/// One occurrence of the delimiter processed by `spec_compress_from`.
proof fn lemma_compress_step(line: Seq<u8>, d: Seq<u8>, ps: Seq<int>, i: int, prev: int)
    requires
        0 <= i < ps.len(),
    ensures
        spec_compress_from(line, d, ps.subrange(i, ps.len() as int), prev) == compress_piece(line, d, ps[i], prev)
            + spec_compress_from(line, d, ps.subrange(i + 1, ps.len() as int), ps[i] + d.len()),
{
    reveal(spec_compress_from);
    let rest = ps.subrange(i, ps.len() as int);
    assert(rest[0] == ps[i]);
    assert(rest.drop_first() =~= ps.subrange(i + 1, ps.len() as int));
}

/// The end of `spec_compress_from`: no occurrence left.
proof fn lemma_compress_end(line: Seq<u8>, d: Seq<u8>, prev: int)
    ensures
        spec_compress_from(line, d, Seq::empty(), prev) == if prev < line.len() {
            line.subrange(prev, line.len() as int)
        } else {
            Seq::empty()
        },
{
    reveal(spec_compress_from);
}

/// Write into `output` the line with each run of `delimiter` cut to one.
#[verifier::rlimit(50)]
#[verifier::spinoff_prover]
pub fn compress_delimiter(line: &[u8], delimiter: &[u8], output: &mut Vec<u8>)
    ensures
        final(output)@ == spec_compress(line@, delimiter@),
{
    output.clear();
    let ps = bytes_find_all(line, delimiter);
    let ghost psv = ints(ps@);
    proof {
        lemma_find_fwd_wf(line@, delimiter@, 0);
    }
    let dlen = delimiter.len();
    let mut prev_idx: usize = 0;
    let mut i: usize = 0;
    let ghost target = spec_compress(line@, delimiter@);
    proof {
        assert(psv.subrange(0, psv.len() as int) =~= psv);
        assert(output@ + spec_compress_from(line@, delimiter@, psv.subrange(0, psv.len() as int), 0)
            =~= target);
    }
    while i < ps.len()
        invariant
            psv == ints(ps@),
            line@.len() == line.len(),
            crate::search::fwd_positions_wf(line@, delimiter@, psv, 0),
            dlen == delimiter@.len(),
            i <= ps@.len(),
            prev_idx <= line@.len(),
            i > 0 ==> prev_idx == psv[i - 1] + dlen,
            i == 0 ==> prev_idx == 0,
            output@ + spec_compress_from(line@, delimiter@, psv.subrange(i as int, psv.len() as int), prev_idx as int)
                == target,
        decreases ps.len() - i,
    {
        let idx = ps[i];
        proof {
            assert(psv[i as int] == idx as int);
            assert(occurs_at(line@, delimiter@, psv[i as int]));
            if i > 0 {
                assert(psv[i - 1] + step(delimiter@) <= psv[i as int]);
            }
            lemma_compress_step(line@, delimiter@, psv, i as int, prev_idx as int);
        }
        let ghost before = output@;
        push_compressed_piece(line, delimiter, idx, prev_idx, output);
        proof {
            let part = compress_piece(line@, delimiter@, idx as int, prev_idx as int);
            assert(before + part + spec_compress_from(line@, delimiter@, psv.subrange(i + 1, psv.len() as int), idx + dlen)
                =~= before + (part + spec_compress_from(line@, delimiter@, psv.subrange(i + 1, psv.len() as int), idx + dlen)));
        }
        prev_idx = idx + dlen;
        i = i + 1;
    }
    proof {
        assert(psv.subrange(i as int, psv.len() as int) =~= Seq::<int>::empty());
        lemma_compress_end(line@, delimiter@, prev_idx as int);
    }
    if prev_idx < line.len() {
        append_bytes(output, &line[prev_idx..line.len()]);
    }
    proof {
        if prev_idx >= line@.len() {
            assert(output@ + Seq::<u8>::empty() =~= output@);
        }
    }
}

/// `line` with every match of `re` replaced by `new_delimiter`.
pub fn compress_delimiter_with_regex(line: &[u8], re: &CompiledRegex, new_delimiter: &[u8]) -> (r: Vec<u8>)
    ensures
        r@ == regex_replace(re@, line@, new_delimiter@),
{
    re.replace_all(line, new_delimiter)
}

/// The line once trimmed as the options ask.
pub open spec fn spec_trimmed(line: Seq<u8>, opt: Opt) -> Seq<u8> {
    match opt.trim {
        None => line,
        Some(k) => match opt.regex_bag {
            Some(bag) => spec_trim_regex(line, k, regex_find(bag.greedy@, line)),
            None => spec_trim(line, k, opt.delimiter@),
        },
    }
}

/// The line once its delimiters are compressed, as the options ask.
pub open spec fn spec_compressed(line: Seq<u8>, opt: Opt) -> Seq<u8> {
    if !opt.compress_delimiter {
        line
    } else {
        match opt.regex_bag {
            Some(bag) => regex_replace(bag.greedy@, line, opt.replace_delimiter.unwrap()@),
            None => spec_compress(line, opt.delimiter@),
        }
    }
}

/// The plan can look for the fields it needs.
pub open spec fn plan_ready<F: DelimiterFinder, R: DelimiterFinder>(plan: FieldPlan<F, R>) -> bool {
    match plan.extract_func {
        ExtractMode::EveryField => strictly_increasing(plan.positive_indices@) && plan.neg_ready(),
        ExtractMode::PosIndices => plan.pos_ready(),
        ExtractMode::NegIndices => plan.neg_ready(),
        ExtractMode::BothIndices => plan.pos_ready() && plan.neg_ready(),
    }
}

/// The stored fields after the plan, with stored fields `pf` and `nf`,
/// looked at `line`, and the number of fields when the plan counts them.
pub open spec fn spec_extract_with<F: DelimiterFinder, R: DelimiterFinder>(
    plan: FieldPlan<F, R>,
    pf: Seq<(int, int)>,
    nf: Seq<(int, int)>,
    line: Seq<u8>,
) -> (Seq<(int, int)>, Seq<(int, int)>, Option<int>) {
    if line.len() == 0 {
        (pf, nf, if plan.extract_func == ExtractMode::EveryField {
            Some(0int)
        } else {
            None
        })
    } else {
        match plan.extract_func {
            ExtractMode::EveryField => (
                plan.fwd_fields(line),
                spec_fill_fields(
                    nf,
                    plan.negative_indices@,
                    fields_rev(reverse_ranges(plan.finder.spec_ranges(line)), line.len() as int),
                ),
                Some(plan.fwd_fields(line).len() as int),
            ),
            ExtractMode::PosIndices => (
                spec_fill_fields(pf, plan.positive_indices@, plan.fwd_fields(line)),
                nf,
                None,
            ),
            ExtractMode::NegIndices => (
                pf,
                spec_fill_fields(nf, plan.negative_indices@, plan.rev_fields(line)),
                None,
            ),
            ExtractMode::BothIndices => (
                spec_fill_fields(pf, plan.positive_indices@, plan.fwd_fields(line)),
                spec_fill_fields(nf, plan.negative_indices@, plan.rev_fields(line)),
                None,
            ),
        }
    }
}

/// The stored fields after the plan looked at `line`, and the number of
/// fields when the plan counts them.
pub open spec fn spec_extract<F: DelimiterFinder, R: DelimiterFinder>(
    plan: FieldPlan<F, R>,
    line: Seq<u8>,
) -> (Seq<(int, int)>, Seq<(int, int)>, Option<int>) {
    spec_extract_with(plan, ranges_view(plan.positive_fields@), ranges_view(plan.negative_fields@), line)
}

/// The plan looks at the line: the stored fields change, nothing else.
pub open spec fn plan_after<F: DelimiterFinder, R: DelimiterFinder>(
    new: FieldPlan<F, R>,
    old: FieldPlan<F, R>,
    line: Seq<u8>,
) -> bool {
    &&& ranges_view(new.positive_fields@) == spec_extract(old, line).0
    &&& ranges_view(new.negative_fields@) == spec_extract(old, line).1
    &&& new.positive_indices@ == old.positive_indices@
    &&& new.negative_indices@ == old.negative_indices@
    &&& new.extract_func == old.extract_func
    &&& new.finder == old.finder
    &&& new.finder_rev == old.finder_rev
    &&& plan_ready(new)
}

/// Look for the fields of `line` as the plan says; gives the number of
/// fields when the plan counts them (even when a field asked for is not
/// there).
fn run_extract<F: DelimiterFinder, R: DelimiterFinder>(line: &[u8], plan: &mut FieldPlan<F, R>) -> (r:
    Option<usize>)
    requires
        plan_ready(*old(plan)),
    ensures
        plan_after(*final(plan), *old(plan), line@),
        match r {
            Some(n) => spec_extract(*old(plan), line@).2 == Some(n as int),
            None => spec_extract(*old(plan), line@).2 is None,
        },
{
    let ghost old_pf = plan.positive_fields@;
    let ghost old_nf = plan.negative_fields@;
    let r = match plan.extract_func {
        ExtractMode::EveryField => {
            let _ = extract_every_field(line, plan);
            if line.len() == 0 {
                Some(0)
            } else {
                Some(plan.positive_fields.len())
            }
        },
        ExtractMode::PosIndices => {
            let _ = extract_fields_using_pos_indices(line, plan);
            None
        },
        ExtractMode::NegIndices => {
            let _ = extract_fields_using_negative_indices(line, plan);
            None
        },
        ExtractMode::BothIndices => {
            let _ = extract_fields_using_pos_indices(line, plan);
            let _ = extract_fields_using_negative_indices(line, plan);
            None
        },
    };
    proof {
        assert(ranges_view(old_pf).len() == old_pf.len());
        assert(ranges_view(old_nf).len() == old_nf.len());
        assert(ranges_view(plan.positive_fields@).len() == plan.positive_fields@.len());
        assert(ranges_view(plan.negative_fields@).len() == plan.negative_fields@.len());
    }
    r
}

/// The options are consistent: what each step needs is there.
pub open spec fn opt_ready(opt: Opt) -> bool {
    &&& (opt.trim is Some && opt.regex_bag is None ==> opt.delimiter@.len() > 0)
    &&& (opt.compress_delimiter && opt.regex_bag is Some ==> opt.replace_delimiter is Some)
    &&& (opt.replace_delimiter_fn == Some(ReplaceDelimiterFn::Regex) ==> opt.regex_bag is Some
        && opt.replace_delimiter is Some)
    &&& (opt.replace_delimiter_fn == Some(ReplaceDelimiterFn::Fixed) ==> opt.replace_delimiter is Some)
}

/// The text that a bound selects in `line`, or its fallback, or the general
/// fallback; without any, the error of the field lookup.
pub open spec fn spec_bound_text(
    line: Seq<u8>,
    opt: Opt,
    pf: Seq<(int, int)>,
    nf: Seq<(int, int)>,
    b: UserBoundsView,
) -> Result<Seq<u8>, ErrorView> {
    let f = spec_get_field(pf, nf, b.l, b.r, line.len() as int);
    if f is Ok && f->Ok_0.1 <= line.len() {
        Ok(line.subrange(f->Ok_0.0, f->Ok_0.1))
    } else {
        match b.fallback_oob {
            Some(fb) => Ok(fb),
            None => match opt.fallback_oob {
                Some(g) => Ok(g@),
                None => Err(
                    match f {
                        Err(x) => x,
                        Ok(_) => ErrorView::OutOfBounds(b.r),
                    },
                ),
            },
        }
    }
}

/// A printed field with the delimiters inside it replaced, as the options ask.
pub open spec fn spec_replaced(text: Seq<u8>, opt: Opt) -> Seq<u8> {
    match opt.replace_delimiter_fn {
        Some(ReplaceDelimiterFn::Regex) => regex_replace(
            opt.regex_bag.unwrap().normal@,
            text,
            opt.replace_delimiter.unwrap()@,
        ),
        Some(ReplaceDelimiterFn::Fixed) => spec_replace(text, opt.delimiter@, opt.replace_delimiter.unwrap()@),
        None => text,
    }
}

/// A printed field, as a JSON string when asked.
pub open spec fn spec_maybe_json(text: Seq<u8>, json: bool) -> Seq<u8> {
    if json {
        encode_utf8(json_encoded(lossy_utf8(text)))
    } else {
        text
    }
}

/// What is printed between joined fields.
pub open spec fn join_delimiter(opt: Opt) -> Seq<u8> {
    match opt.replace_delimiter {
        Some(r) => r@,
        None => opt.delimiter@,
    }
}

/// What one bound or filler prints, or the error it stops on.
pub open spec fn spec_bof_out(
    line: Seq<u8>,
    opt: Opt,
    pf: Seq<(int, int)>,
    nf: Seq<(int, int)>,
    x: BofView,
) -> (Seq<u8>, Option<ErrorView>) {
    match x {
        BofView::Filler(f) => (f, None),
        BofView::Bound(b) => match spec_bound_text(line, opt, pf, nf, b) {
            Err(e) => (Seq::empty(), Some(e)),
            Ok(t) => (
                spec_maybe_json(spec_replaced(t, opt), opt.json) + if opt.join && !b.is_last {
                    join_delimiter(opt)
                } else {
                    Seq::empty()
                },
                None,
            ),
        },
    }
}

/// What the bounds and fillers print, in order, up to the first error.
#[verifier::opaque]
pub open spec fn spec_emit(
    line: Seq<u8>,
    opt: Opt,
    pf: Seq<(int, int)>,
    nf: Seq<(int, int)>,
    bofs: Seq<BofView>,
) -> (Seq<u8>, Option<ErrorView>)
    decreases bofs.len(),
{
    if bofs.len() == 0 {
        (Seq::empty(), None)
    } else {
        let prev = spec_emit(line, opt, pf, nf, bofs.drop_last());
        if prev.1 is Some {
            prev
        } else {
            let cur = spec_bof_out(line, opt, pf, nf, bofs.last());
            (prev.0 + cur.0, cur.1)
        }
    }
}

/// Some bound covers more than one field.
pub open spec fn has_range(s: Seq<BofView>) -> bool {
    exists|i: int| 0 <= i < s.len() && (#[trigger] s[i] matches BofView::Bound(b) && b.l != b.r)
}

/// The bounds used for a line with `count` fields: complemented and
/// unpacked as the options ask.
#[verifier::opaque]
pub open spec fn spec_line_bounds(opt: Opt, count: Option<int>) -> Result<Seq<BofView>, ErrorView> {
    let n = match count {
        Some(c) => c,
        None => 0,
    };
    let base = if opt.complement {
        if n > 0 && has_bound(complement_list(opt.bounds@, n)) {
            Ok(mark_last(complement_list(opt.bounds@, n)))
        } else {
            Err(ErrorView::EmptyComplement)
        }
    } else {
        Ok(opt.bounds@)
    };
    match base {
        Err(e) => Err(e),
        Ok(bs) => if opt.unpack && has_range(bs) {
            Ok(mark_last(unpack_list(bs, n)))
        } else {
            Ok(bs)
        },
    }
}

/// What a (trimmed, compressed) line prints once its fields are known, and
/// the error it stops on.
pub open spec fn spec_cut_line(
    line: Seq<u8>,
    opt: Opt,
    pf: Seq<(int, int)>,
    nf: Seq<(int, int)>,
    count: Option<int>,
    eol: Seq<u8>,
) -> (Seq<u8>, Option<ErrorView>) {
    if opt.only_delimited && count == Some(1int) {
        (Seq::empty(), None)
    } else {
        let open = if opt.json {
            seq![91u8]
        } else {
            Seq::empty()
        };
        match spec_line_bounds(opt, count) {
            Err(e) => (open, Some(e)),
            Ok(bs) => {
                let body = spec_emit(line, opt, pf, nf, bs);
                if body.1 is Some {
                    (open + body.0, body.1)
                } else {
                    (open + body.0 + (if opt.json {
                        seq![93u8]
                    } else {
                        Seq::<u8>::empty()
                    }) + eol, None)
                }
            },
        }
    }
}

/// What cutting `line` prints and the error it stops on, with the stored
/// fields `pf` and `nf` of the plan before, and the stored fields after.
#[verifier::opaque]
pub open spec fn spec_cut_str_with<F: DelimiterFinder, R: DelimiterFinder>(
    line: Seq<u8>,
    opt: Opt,
    plan: FieldPlan<F, R>,
    pf: Seq<(int, int)>,
    nf: Seq<(int, int)>,
    eol: Seq<u8>,
) -> (Seq<u8>, Option<ErrorView>, Seq<(int, int)>, Seq<(int, int)>) {
    let l1 = spec_trimmed(line, opt);
    if l1.len() == 0 {
        (if opt.only_delimited {
            Seq::empty()
        } else {
            eol
        }, None, pf, nf)
    } else {
        let l2 = spec_compressed(l1, opt);
        let ex = spec_extract_with(plan, pf, nf, l2);
        let o = spec_cut_line(l2, opt, ex.0, ex.1, ex.2, eol);
        (o.0, o.1, ex.0, ex.1)
    }
}

/// What cutting `line` prints and the error it stops on, with the fields
/// found by the plan.
pub open spec fn spec_cut_str<F: DelimiterFinder, R: DelimiterFinder>(
    line: Seq<u8>,
    opt: Opt,
    plan: FieldPlan<F, R>,
    eol: Seq<u8>,
) -> (Seq<u8>, Option<ErrorView>) {
    let o = spec_cut_str_with(
        line,
        opt,
        plan,
        ranges_view(plan.positive_fields@),
        ranges_view(plan.negative_fields@),
        eol,
    );
    (o.0, o.1)
}

/// The line that the plan looks at: trimmed, then compressed.
pub open spec fn spec_prepared(line: Seq<u8>, opt: Opt) -> Seq<u8> {
    spec_compressed(spec_trimmed(line, opt), opt)
}

/// The text that a bound selects: its field of the line, or a fallback.
fn select_text<'a, F: DelimiterFinder, R: DelimiterFinder>(
    line: &'a [u8],
    opt: &'a Opt,
    plan: &FieldPlan<F, R>,
    b: &'a UserBounds,
) -> (r: Result<&'a [u8], TucError>)
    ensures
        match spec_bound_text(
            line@,
            *opt,
            ranges_view(plan.positive_fields@),
            ranges_view(plan.negative_fields@),
            b@,
        ) {
            Ok(t) => r is Ok && r->Ok_0@ == t,
            Err(e) => r is Err && r->Err_0@ == e,
        },
{
    let field = plan.get_field(b, line.len());
    match &field {
        Ok(f) => {
            if f.end <= line.len() {
                return Ok(&line[f.start..f.end]);
            }
        },
        Err(_) => {},
    }
    match &b.fallback_oob {
        Some(fb) => Ok(fb.as_slice()),
        None => match &opt.fallback_oob {
            Some(g) => Ok(g.as_slice()),
            None => match field {
                Err(e) => Err(e),
                Ok(_) => Err(TucError::OutOfBounds(b.r)),
            },
        },
    }
}

/// Print `text` with its delimiters replaced, as JSON when asked.
fn render_text(text: &[u8], opt: &Opt, stdout: &mut Vec<u8>)
    requires
        opt_ready(*opt),
    ensures
        final(stdout)@ == old(stdout)@ + spec_maybe_json(spec_replaced(text@, *opt), opt.json),
{
    let replaced: Vec<u8> = match opt.replace_delimiter_fn {
        Some(ReplaceDelimiterFn::Regex) => {
            let bag = opt.regex_bag.as_ref().unwrap();
            let rd = opt.replace_delimiter.as_ref().unwrap();
            bag.normal.replace_all(text, rd.as_slice())
        },
        Some(ReplaceDelimiterFn::Fixed) => {
            let rd = opt.replace_delimiter.as_ref().unwrap();
            bytes_replace(text, opt.delimiter.as_slice(), rd.as_slice())
        },
        None => vstd::slice::slice_to_vec(text),
    };
    if opt.json {
        let s = string_from_bytes(replaced.as_slice());
        let j = json_string(s.as_str());
        append_bytes(stdout, j.as_str().as_bytes());
    } else {
        append_bytes(stdout, replaced.as_slice());
    }
}

/// The text that a bound selects, with its delimiters replaced and as JSON
/// when asked, then the delimiter that joins it to the next field.
fn write_bound<F: DelimiterFinder, R: DelimiterFinder>(
    line: &[u8],
    opt: &Opt,
    plan: &FieldPlan<F, R>,
    b: &UserBounds,
    stdout: &mut Vec<u8>,
) -> (r: Result<(), TucError>)
    requires
        opt_ready(*opt),
    ensures
        ({
            let o = spec_bof_out(
                line@,
                *opt,
                ranges_view(plan.positive_fields@),
                ranges_view(plan.negative_fields@),
                BofView::Bound(b@),
            );
            &&& final(stdout)@ == old(stdout)@ + o.0
            &&& match r {
                Ok(_) => o.1 is None,
                Err(e) => o.1 == Some(e@),
            }
        }),
{
    let text = match select_text(line, opt, plan, b) {
        Ok(t) => t,
        Err(e) => {
            return Err(e);
        },
    };
    render_text(text, opt, stdout);
    if opt.join && !b.is_last {
        match &opt.replace_delimiter {
            Some(rd) => append_bytes(stdout, rd.as_slice()),
            None => append_bytes(stdout, opt.delimiter.as_slice()),
        }
    }
    assert(stdout@ =~= old(stdout)@ + spec_bof_out(
        line@,
        *opt,
        ranges_view(plan.positive_fields@),
        ranges_view(plan.negative_fields@),
        BofView::Bound(b@),
    ).0);
    Ok(())
}

proof fn lemma_emit_step(
    line: Seq<u8>,
    opt: Opt,
    pf: Seq<(int, int)>,
    nf: Seq<(int, int)>,
    bofs: Seq<BofView>,
    i: int,
)
    requires
        0 <= i < bofs.len(),
    ensures
        spec_emit(line, opt, pf, nf, bofs.subrange(0, i + 1)) == if spec_emit(
            line,
            opt,
            pf,
            nf,
            bofs.subrange(0, i),
        ).1 is Some {
            spec_emit(line, opt, pf, nf, bofs.subrange(0, i))
        } else {
            (spec_emit(line, opt, pf, nf, bofs.subrange(0, i)).0 + spec_bof_out(line, opt, pf, nf, bofs[i]).0,
            spec_bof_out(line, opt, pf, nf, bofs[i]).1)
        },
{
    reveal(spec_emit);
    assert(bofs.subrange(0, i + 1).drop_last() =~= bofs.subrange(0, i));
}

/// Print every bound and filler of `bounds`, up to the first error.
fn emit_bounds<F: DelimiterFinder, R: DelimiterFinder>(
    line: &[u8],
    opt: &Opt,
    plan: &FieldPlan<F, R>,
    bounds: &UserBoundsList,
    stdout: &mut Vec<u8>,
) -> (r: Result<(), TucError>)
    requires
        opt_ready(*opt),
    ensures
        ({
            let o = spec_emit(
                line@,
                *opt,
                ranges_view(plan.positive_fields@),
                ranges_view(plan.negative_fields@),
                bounds@,
            );
            &&& final(stdout)@ == old(stdout)@ + o.0
            &&& match r {
                Ok(_) => o.1 is None,
                Err(e) => o.1 == Some(e@),
            }
        }),
{
    let ghost pf = ranges_view(plan.positive_fields@);
    let ghost nf = ranges_view(plan.negative_fields@);
    let ghost s = bounds@;
    let ghost start = stdout@;
    let mut i: usize = 0;
    proof {
        reveal(spec_emit);
        assert(s.subrange(0, 0) =~= Seq::<BofView>::empty());
        assert(start + Seq::<u8>::empty() =~= start);
    }
    while i < bounds.list.len()
        invariant
            i <= bounds.list@.len(),
            s == bounds@,
            opt_ready(*opt),
            pf == ranges_view(plan.positive_fields@),
            nf == ranges_view(plan.negative_fields@),
            spec_emit(line@, *opt, pf, nf, s.subrange(0, i as int)).1 is None,
            stdout@ == start + spec_emit(line@, *opt, pf, nf, s.subrange(0, i as int)).0,
            start == old(stdout)@,
        decreases bounds.list.len() - i,
    {
        proof {
            lemma_emit_step(line@, *opt, pf, nf, s, i as int);
            assert(s[i as int] == bounds.list@[i as int]@);
        }
        match &bounds.list[i] {
            BoundOrFiller::Filler(f) => {
                append_bytes(stdout, f.as_slice());
            },
            BoundOrFiller::Bound(b) => {
                let res = write_bound(line, opt, plan, b, stdout);
                match res {
                    Err(e) => {
                        proof {
                            assert(stdout@ =~= start + spec_emit(line@, *opt, pf, nf, s.subrange(0, i + 1)).0);
                            assert(s.subrange(0, s.len() as int) =~= s);
                            lemma_emit_error_stays(line@, *opt, pf, nf, s, i + 1);
                        }
                        return Err(e);
                    },
                    Ok(_) => {},
                }
            },
        }
        proof {
            assert(stdout@ =~= start + spec_emit(line@, *opt, pf, nf, s.subrange(0, i + 1)).0);
        }
        i = i + 1;
    }
    proof {
        assert(s.subrange(0, s.len() as int) =~= s);
    }
    Ok(())
}

/// Once the output stops on an error, later entries change nothing.
proof fn lemma_emit_error_stays(
    line: Seq<u8>,
    opt: Opt,
    pf: Seq<(int, int)>,
    nf: Seq<(int, int)>,
    s: Seq<BofView>,
    k: int,
)
    requires
        0 <= k <= s.len(),
        spec_emit(line, opt, pf, nf, s.subrange(0, k)).1 is Some,
    ensures
        spec_emit(line, opt, pf, nf, s) == spec_emit(line, opt, pf, nf, s.subrange(0, k)),
    decreases s.len() - k,
{
    if k < s.len() {
        lemma_emit_step(line, opt, pf, nf, s, k);
        lemma_emit_error_stays(line, opt, pf, nf, s, k + 1);
    } else {
        assert(s.subrange(0, k) =~= s);
    }
}

/// Whether some bound covers more than one field.
fn list_has_range(l: &UserBoundsList) -> (r: bool)
    ensures
        r == has_range(l@),
{
    let mut i: usize = 0;
    while i < l.list.len()
        invariant
            i <= l.list@.len(),
            forall|j: int| 0 <= j < i ==> !(#[trigger] l@[j] matches BofView::Bound(b) && b.l != b.r),
        decreases l.list.len() - i,
    {
        proof {
            assert(l@[i as int] == l.list@[i as int]@);
        }
        match &l.list[i] {
            BoundOrFiller::Bound(b) => {
                if b.l != b.r {
                    return true;
                }
            },
            BoundOrFiller::Filler(_) => {},
        }
        i = i + 1;
    }
    false
}

/// The bounds for a line with `count` fields (`None`: the bounds of `opt`
/// as they are), complemented and unpacked as the options ask.
fn select_bounds(opt: &Opt, count: Option<usize>) -> (r: Result<Option<UserBoundsList>, TucError>)
    ensures
        ({
            let c = match count {
                Some(c) => Some(c as int),
                None => None,
            };
            match r {
                Ok(Some(u)) => spec_line_bounds(*opt, c) == Ok::<Seq<BofView>, ErrorView>(u@),
                Ok(None) => spec_line_bounds(*opt, c) == Ok::<Seq<BofView>, ErrorView>(opt.bounds@),
                Err(e) => spec_line_bounds(*opt, c) == Err::<Seq<BofView>, ErrorView>(e@),
            }
        }),
{
    reveal(spec_line_bounds);
    let n: usize = match count {
        Some(c) => c,
        None => 0,
    };
    let mut owned: Option<UserBoundsList> = None;
    if opt.complement {
        if n == 0 {
            return Err(TucError::EmptyComplement);
        }
        match opt.bounds.complement(n) {
            Ok(c) => {
                owned = Some(c);
            },
            Err(e) => {
                return Err(e);
            },
        }
    }
    match owned {
        Some(b) => if opt.unpack && list_has_range(&b) {
            Ok(Some(b.unpack(n)))
        } else {
            Ok(Some(b))
        },
        None => if opt.unpack && list_has_range(&opt.bounds) {
            Ok(Some(opt.bounds.unpack(n)))
        } else {
            Ok(None)
        },
    }
}

/// Print a (trimmed, compressed) line once its fields are known.
fn cut_line<F: DelimiterFinder, R: DelimiterFinder>(
    line: &[u8],
    opt: &Opt,
    plan: &FieldPlan<F, R>,
    count: Option<usize>,
    eol: &[u8],
    stdout: &mut Vec<u8>,
) -> (r: Result<(), TucError>)
    requires
        opt_ready(*opt),
    ensures
        ({
            let o = spec_cut_line(
                line@,
                *opt,
                ranges_view(plan.positive_fields@),
                ranges_view(plan.negative_fields@),
                match count {
                    Some(c) => Some(c as int),
                    None => None,
                },
                eol@,
            );
            &&& final(stdout)@ == old(stdout)@ + o.0
            &&& match r {
                Ok(_) => o.1 is None,
                Err(e) => o.1 == Some(e@),
            }
        }),
{
    let ghost c = match count {
        Some(c) => Some(c as int),
        None => None,
    };
    let n: usize = match count {
        Some(c) => c,
        None => 0,
    };
    if opt.only_delimited && n == 1 && count.is_some() {
        proof {
            assert(old(stdout)@ + Seq::<u8>::empty() =~= old(stdout)@);
        }
        return Ok(());
    }
    let ghost start = stdout@;
    if opt.json {
        stdout.push(91u8);
    }
    let ghost open = if opt.json {
        seq![91u8]
    } else {
        Seq::<u8>::empty()
    };
    proof {
        assert(stdout@ =~= start + open);
    }
    let selected = match select_bounds(opt, count) {
        Ok(x) => x,
        Err(e) => {
            return Err(e);
        },
    };
    let bounds: &UserBoundsList = match &selected {
        Some(u) => u,
        None => &opt.bounds,
    };
    let ghost mid = stdout@;
    let res = emit_bounds(line, opt, plan, bounds, stdout);
    match res {
        Err(e) => {
            proof {
                assert(stdout@ =~= start + (open + spec_emit(
                    line@,
                    *opt,
                    ranges_view(plan.positive_fields@),
                    ranges_view(plan.negative_fields@),
                    bounds@,
                ).0));
            }
            return Err(e);
        },
        Ok(_) => {},
    }
    if opt.json {
        stdout.push(93u8);
    }
    append_bytes(stdout, eol);
    proof {
        let body = spec_emit(
            line@,
            *opt,
            ranges_view(plan.positive_fields@),
            ranges_view(plan.negative_fields@),
            bounds@,
        );
        let close = if opt.json {
            seq![93u8]
        } else {
            Seq::<u8>::empty()
        };
        assert(stdout@ =~= start + (open + body.0 + close + eol@));
    }
    Ok(())
}

/// Cut one line: trim it, compress its delimiters, find its fields with the
/// plan, then print the bounds and fillers followed by `eol` (see
/// `spec_cut_str`). `compressed_line_buf` holds the compressed line.
pub fn cut_str<F: DelimiterFinder, R: DelimiterFinder>(
    line: &[u8],
    opt: &Opt,
    stdout: &mut Vec<u8>,
    compressed_line_buf: &mut Vec<u8>,
    eol: &[u8],
    plan: &mut FieldPlan<F, R>,
) -> (r: Result<(), TucError>)
    requires
        opt_ready(*opt),
        plan_ready(*old(plan)),
        needs_num_fields(*opt) ==> old(plan).extract_func == ExtractMode::EveryField,
    ensures
        final(stdout)@ == old(stdout)@ + spec_cut_str(line@, *opt, *old(plan), eol@).0,
        match r {
            Ok(_) => spec_cut_str(line@, *opt, *old(plan), eol@).1 is None,
            Err(e) => spec_cut_str(line@, *opt, *old(plan), eol@).1 == Some(e@),
        },
        spec_trimmed(line@, *opt).len() == 0 ==> *final(plan) == *old(plan),
        spec_trimmed(line@, *opt).len() > 0 ==> plan_after(*final(plan), *old(plan), spec_prepared(line@, *opt)),
        ranges_view(final(plan).positive_fields@) == spec_cut_str_with(
            line@,
            *opt,
            *old(plan),
            ranges_view(old(plan).positive_fields@),
            ranges_view(old(plan).negative_fields@),
            eol@,
        ).2,
        ranges_view(final(plan).negative_fields@) == spec_cut_str_with(
            line@,
            *opt,
            *old(plan),
            ranges_view(old(plan).positive_fields@),
            ranges_view(old(plan).negative_fields@),
            eol@,
        ).3,
        plan_ready(*final(plan)),
        final(plan).positive_indices@ == old(plan).positive_indices@,
        final(plan).negative_indices@ == old(plan).negative_indices@,
        final(plan).extract_func == old(plan).extract_func,
        final(plan).finder == old(plan).finder,
        final(plan).finder_rev == old(plan).finder_rev,
{
    proof {
        reveal(spec_cut_str_with);
    }
    let line1: &[u8] = match &opt.trim {
        None => line,
        Some(k) => match &opt.regex_bag {
            Some(bag) => trim_regex(line, k, &bag.greedy),
            None => trim(line, k, opt.delimiter.as_slice()),
        },
    };
    if line1.len() == 0 {
        if !opt.only_delimited {
            append_bytes(stdout, eol);
        } else {
            proof {
                assert(old(stdout)@ + Seq::<u8>::empty() =~= old(stdout)@);
            }
        }
        return Ok(());
    }
    if opt.compress_delimiter {
        match &opt.regex_bag {
            Some(bag) => {
                let rd = opt.replace_delimiter.as_ref().unwrap();
                let v = compress_delimiter_with_regex(line1, &bag.greedy, rd.as_slice());
                *compressed_line_buf = v;
            },
            None => {
                compress_delimiter(line1, opt.delimiter.as_slice(), compressed_line_buf);
            },
        }
    }
    let line2: &[u8] = if opt.compress_delimiter {
        compressed_line_buf.as_slice()
    } else {
        line1
    };
    let count = run_extract(line2, plan);
    cut_line(line2, opt, plan, count, eol, stdout)
}

/// The records of `s`, each with its terminator `t` (the last one may have
/// none); there is no empty record after a final terminator.
#[verifier::opaque]
pub open spec fn split_records(s: Seq<u8>, t: u8) -> Seq<Seq<u8>>
    decreases s.len(),
{
    if s.len() == 0 {
        Seq::empty()
    } else {
        match first_index_of(s, t) {
            Some(i) => if 0 <= i < s.len() {
                seq![s.subrange(0, i + 1)] + split_records(s.subrange(i + 1, s.len() as int), t)
            } else {
                seq![s]
            },
            None => seq![s],
        }
    }
}

/// A record without its terminator (and, for newline-terminated lines, a
/// carriage return before it).
pub open spec fn trim_record(r: Seq<u8>, eol: EOL) -> Seq<u8> {
    if r.len() > 0 && r.last() == spec_eol_byte(eol) {
        let r2 = r.drop_last();
        if eol == EOL::Newline && r2.len() > 0 && r2.last() == 13u8 {
            r2.drop_last()
        } else {
            r2
        }
    } else {
        r
    }
}

/// What cutting each line prints, in order, up to the first error; the
/// stored fields of the plan carry from one line to the next.
#[verifier::opaque]
pub open spec fn spec_process<F: DelimiterFinder, R: DelimiterFinder>(
    lines: Seq<Seq<u8>>,
    opt: Opt,
    plan: FieldPlan<F, R>,
    pf: Seq<(int, int)>,
    nf: Seq<(int, int)>,
) -> (Seq<u8>, Option<ErrorView>)
    decreases lines.len(),
{
    if lines.len() == 0 {
        (Seq::empty(), None)
    } else {
        let o = spec_cut_str_with(
            trim_record(lines[0], opt.eol),
            opt,
            plan,
            pf,
            nf,
            seq![spec_eol_byte(opt.eol)],
        );
        if o.1 is Some {
            (o.0, o.1)
        } else {
            let rest = spec_process(lines.drop_first(), opt, plan, o.2, o.3);
            (o.0 + rest.0, rest.1)
        }
    }
}

/// `s` without `suffix` at its end, when it is there.
pub open spec fn strip_suffix(s: Seq<u8>, suffix: Seq<u8>) -> Seq<u8> {
    if suffix.len() <= s.len() && s.subrange(s.len() - suffix.len(), s.len() as int) == suffix {
        s.subrange(0, s.len() - suffix.len())
    } else {
        s
    }
}

/// What cutting the whole input prints: line by line, or as one piece
/// ended by the delimiter when the input is read to its end.
pub open spec fn spec_process_input<F: DelimiterFinder, R: DelimiterFinder>(
    input: Seq<u8>,
    opt: Opt,
    plan: FieldPlan<F, R>,
) -> (Seq<u8>, Option<ErrorView>) {
    let pf = ranges_view(plan.positive_fields@);
    let nf = ranges_view(plan.negative_fields@);
    if opt.read_to_end {
        let o = spec_cut_str_with(strip_suffix(input, opt.delimiter@), opt, plan, pf, nf, opt.delimiter@);
        (o.0, o.1)
    } else {
        spec_process(split_records(input, spec_eol_byte(opt.eol)), opt, plan, pf, nf)
    }
}

pub(crate) proof fn lemma_split_records_step(s: Seq<u8>, t: u8, i: int)
    requires
        first_index_of(s, t) == Some(i),
        0 <= i < s.len(),
    ensures
        split_records(s, t) == seq![s.subrange(0, i + 1)] + split_records(
            s.subrange(i + 1, s.len() as int),
            t,
        ),
{
    reveal(split_records);
}

pub(crate) proof fn lemma_split_records_last(s: Seq<u8>, t: u8)
    requires
        first_index_of(s, t) is None,
        s.len() > 0,
    ensures
        split_records(s, t) == seq![s],
{
    reveal(split_records);
}

pub(crate) proof fn lemma_split_records_empty(t: u8)
    ensures
        split_records(Seq::empty(), t) == Seq::<Seq<u8>>::empty(),
{
    reveal(split_records);
}

proof fn lemma_process_empty<F: DelimiterFinder, R: DelimiterFinder>(
    opt: Opt,
    plan: FieldPlan<F, R>,
    pf: Seq<(int, int)>,
    nf: Seq<(int, int)>,
)
    ensures
        spec_process(Seq::empty(), opt, plan, pf, nf) == (Seq::<u8>::empty(), None::<ErrorView>),
{
    reveal(spec_process);
}

proof fn lemma_process_step<F: DelimiterFinder, R: DelimiterFinder>(
    lines: Seq<Seq<u8>>,
    opt: Opt,
    plan: FieldPlan<F, R>,
    pf: Seq<(int, int)>,
    nf: Seq<(int, int)>,
)
    requires
        lines.len() > 0,
    ensures
        ({
            let o = spec_cut_str_with(
                trim_record(lines[0], opt.eol),
                opt,
                plan,
                pf,
                nf,
                seq![spec_eol_byte(opt.eol)],
            );
            spec_process(lines, opt, plan, pf, nf) == if o.1 is Some {
                (o.0, o.1)
            } else {
                let rest = spec_process(lines.drop_first(), opt, plan, o.2, o.3);
                (o.0 + rest.0, rest.1)
            }
        }),
{
    reveal(spec_process);
}

/// `s` without `suffix` at its end, when it is there.
pub(crate) fn strip_suffix_exec<'a>(s: &'a [u8], suffix: &[u8]) -> (r: &'a [u8])
    ensures
        r@ == strip_suffix(s@, suffix@),
{
    if suffix.len() <= s.len() {
        let at = s.len() - suffix.len();
        let mut k: usize = 0;
        while k < suffix.len()
            invariant
                at + suffix@.len() == s@.len(),
                s@.len() == s.len(),
                k <= suffix@.len(),
                forall|j: int| 0 <= j < k ==> s@[at + j] == suffix@[j],
            decreases suffix.len() - k,
        {
            if s[at + k] != suffix[k] {
                proof {
                    assert(s@.subrange(at as int, s@.len() as int)[k as int] != suffix@[k as int]);
                }
                return s;
            }
            k = k + 1;
        }
        proof {
            assert(s@.subrange(at as int, s@.len() as int) =~= suffix@);
        }
        &s[0..at]
    } else {
        s
    }
}

/// Remove the terminator (and a carriage return before a newline).
pub(crate) fn trim_record_exec(r: &[u8], eol: EOL) -> (t: &[u8])
    ensures
        t@ == trim_record(r@, eol),
{
    let term = eol.byte();
    let n = r.len();
    if n > 0 && r[n - 1] == term {
        proof {
            assert(r@.subrange(0, n - 1) =~= r@.drop_last());
        }
        let is_newline = match eol {
            EOL::Newline => true,
            EOL::Zero => false,
        };
        if is_newline && n > 1 && r[n - 2] == 13u8 {
            proof {
                assert(r@.subrange(0, n - 2) =~= r@.drop_last().drop_last());
            }
            &r[0..n - 2]
        } else {
            &r[0..n - 1]
        }
    } else {
        r
    }
}

/// Cut every line of `input` with `plan`, writing to `stdout` (see
/// `spec_process_input`); stops on the first error.
pub fn process_lines_with_plan<F: DelimiterFinder, R: DelimiterFinder>(
    input: &[u8],
    stdout: &mut Vec<u8>,
    opt: &Opt,
    compressed_line_buf: &mut Vec<u8>,
    plan: &mut FieldPlan<F, R>,
) -> (r: Result<(), TucError>)
    requires
        opt_ready(*opt),
        plan_ready(*old(plan)),
        needs_num_fields(*opt) ==> old(plan).extract_func == ExtractMode::EveryField,
    ensures
        final(stdout)@ == old(stdout)@ + spec_process_input(input@, *opt, *old(plan)).0,
        match r {
            Ok(_) => spec_process_input(input@, *opt, *old(plan)).1 is None,
            Err(e) => spec_process_input(input@, *opt, *old(plan)).1 == Some(e@),
        },
{
    let ghost plan0 = *plan;
    if opt.read_to_end {
        let line = strip_suffix_exec(input, opt.delimiter.as_slice());
        return cut_str(line, opt, stdout, compressed_line_buf, opt.delimiter.as_slice(), plan);
    }
    let term = opt.eol.byte();
    let eol: [u8; 1] = [term];
    proof {
        assert(eol@ =~= seq![spec_eol_byte(opt.eol)]);
    }
    let len = input.len();
    let mut pos: usize = 0;
    let ghost start = stdout@;
    let ghost total = spec_process_input(input@, *opt, plan0);
    proof {
        assert(input@.subrange(0, len as int) =~= input@);
        assert(start + Seq::<u8>::empty() =~= start);
        assert(total.0 =~= Seq::<u8>::empty() + total.0);
        assert(stdout@.subrange(start.len() as int, stdout@.len() as int) =~= Seq::<u8>::empty());
        assert(stdout@.subrange(0, start.len() as int) =~= start);
    }
    while pos < len
        invariant
            pos <= len,
            len == input@.len(),
            !opt.read_to_end,
            term == spec_eol_byte(opt.eol),
            eol@ == seq![term],
            opt_ready(*opt),
            plan_ready(*plan),
            needs_num_fields(*opt) ==> plan.extract_func == ExtractMode::EveryField,
            plan.positive_indices@ == plan0.positive_indices@,
            plan.negative_indices@ == plan0.negative_indices@,
            plan.extract_func == plan0.extract_func,
            plan.finder == plan0.finder,
            plan.finder_rev == plan0.finder_rev,
            total == spec_process_input(input@, *opt, plan0),
            plan0 == *old(plan),
            total.0 == (stdout@.subrange(start.len() as int, stdout@.len() as int)) + spec_process(
                split_records(input@.subrange(pos as int, len as int), term),
                *opt,
                plan0,
                ranges_view(plan.positive_fields@),
                ranges_view(plan.negative_fields@),
            ).0,
            total.1 == spec_process(
                split_records(input@.subrange(pos as int, len as int), term),
                *opt,
                plan0,
                ranges_view(plan.positive_fields@),
                ranges_view(plan.negative_fields@),
            ).1,
            stdout@.len() >= start.len(),
            stdout@.subrange(0, start.len() as int) == start,
            start == old(stdout)@,
        decreases len - pos,
    {
        let rest = &input[pos..len];
        let end: usize = match find_byte(rest, term) {
            Some(i) => pos + i + 1,
            None => len,
        };
        let ghost lines = split_records(input@.subrange(pos as int, len as int), term);
        proof {
            assert(rest@ == input@.subrange(pos as int, len as int));
            match first_index_of(rest@, term) {
                Some(i) => {
                    lemma_split_records_step(rest@, term, i);
                    assert(rest@.subrange(i + 1, rest@.len() as int) =~= input@.subrange(end as int, len as int));
                    assert(rest@.subrange(0, i + 1) =~= input@.subrange(pos as int, end as int));
                },
                None => {
                    lemma_split_records_last(rest@, term);
                    assert(input@.subrange(end as int, len as int) =~= Seq::<u8>::empty());
                    lemma_split_records_empty(term);
                    assert(rest@ =~= input@.subrange(pos as int, end as int));
                },
            }
            assert(lines[0] == input@.subrange(pos as int, end as int));
            assert(lines.drop_first() =~= split_records(input@.subrange(end as int, len as int), term));
            lemma_process_step(lines, *opt, plan0, ranges_view(plan.positive_fields@), ranges_view(plan.negative_fields@));
        }
        let record = &input[pos..end];
        let line = trim_record_exec(record, opt.eol);
        let ghost pfb = ranges_view(plan.positive_fields@);
        let ghost nfb = ranges_view(plan.negative_fields@);
        let ghost o = spec_cut_str_with(line@, *opt, plan0, pfb, nfb, eol@);
        let ghost rest_after = spec_process(lines.drop_first(), *opt, plan0, o.2, o.3);
        proof {
            assert(spec_cut_str_with(line@, *opt, *plan, pfb, nfb, eol@) == o) by {
                reveal(spec_cut_str_with);
            }
        }
        let ghost before = stdout@;
        let res = cut_str(line, opt, stdout, compressed_line_buf, eol.as_slice(), plan);
        proof {
            assert(stdout@ == before + o.0);
            assert(stdout@.subrange(0, start.len() as int) =~= start);
            assert(stdout@.subrange(start.len() as int, stdout@.len() as int) =~= before.subrange(start.len() as int, before.len() as int) + o.0);
        }
        match res {
            Err(e) => {
                proof {
                    assert(total.1 == Some(e@));
                    assert(total.0 =~= before.subrange(start.len() as int, before.len() as int) + o.0);
                    assert(stdout@ =~= start + stdout@.subrange(start.len() as int, stdout@.len() as int));
                }
                return Err(e);
            },
            Ok(_) => {
                proof {
                    assert(o.1 is None);
                    assert(total.0 =~= stdout@.subrange(start.len() as int, stdout@.len() as int) + rest_after.0);
                }
            },
        }
        pos = end;
    }
    proof {
        assert(input@.subrange(pos as int, len as int) =~= Seq::<u8>::empty());
        lemma_split_records_empty(term);
        lemma_process_empty(*opt, plan0, ranges_view(plan.positive_fields@), ranges_view(plan.negative_fields@));
        assert(stdout@ =~= start + stdout@.subrange(start.len() as int, stdout@.len() as int));
        assert(total.0 =~= stdout@.subrange(start.len() as int, stdout@.len() as int));
    }
    Ok(())
}

/// What cutting `input` with `plan` prints and the error it stops on: line
/// by line, or (`whole`) as a single piece with no terminator.
pub open spec fn spec_run<F: DelimiterFinder, R: DelimiterFinder>(
    plan: FieldPlan<F, R>,
    input: Seq<u8>,
    opt: Opt,
    whole: bool,
) -> (Seq<u8>, Option<ErrorView>) {
    if whole {
        spec_cut_str(input, opt, plan, Seq::empty())
    } else {
        spec_process_input(input, opt, plan)
    }
}

/// Cutting the input with `plan` gave `out` (after what `before` held) and
/// the result `r`.
pub open spec fn cut_result<F: DelimiterFinder, R: DelimiterFinder>(
    plan: FieldPlan<F, R>,
    input: Seq<u8>,
    opt: Opt,
    whole: bool,
    before: Seq<u8>,
    out: Seq<u8>,
    r: Result<(), TucError>,
) -> bool {
    let p = spec_run(plan, input, opt, whole);
    &&& out == before + p.0
    &&& match r {
        Ok(_) => p.1 is None,
        Err(e) => p.1 == Some(e@),
    }
}

/// Cut `input` with `plan`: line by line, or as a single piece.
fn run_plan<F: DelimiterFinder, R: DelimiterFinder>(
    input: &[u8],
    stdout: &mut Vec<u8>,
    opt: &Opt,
    compressed_line_buf: &mut Vec<u8>,
    plan: &mut FieldPlan<F, R>,
    whole: bool,
) -> (r: Result<(), TucError>)
    requires
        opt_ready(*opt),
        plan_ready(*old(plan)),
        needs_num_fields(*opt) ==> old(plan).extract_func == ExtractMode::EveryField,
    ensures
        cut_result(*old(plan), input@, *opt, whole, old(stdout)@, final(stdout)@, r),
{
    if whole {
        let no_eol: Vec<u8> = Vec::new();
        proof {
            assert(no_eol@ =~= Seq::<u8>::empty());
        }
        cut_str(input, opt, stdout, compressed_line_buf, no_eol.as_slice(), plan)
    } else {
        process_lines_with_plan(input, stdout, opt, compressed_line_buf, plan)
    }
}

/// The delimiter is compressed with a regular expression and replaced: the
/// line then holds the replacement as a fixed delimiter.
pub open spec fn uses_replaced_delimiter(opt: Opt) -> bool {
    opt.compress_delimiter && (opt.bounds_type == BoundsType::Fields || opt.bounds_type
        == BoundsType::Lines) && opt.regex_bag is Some && opt.replace_delimiter is Some
}

/// The regular expression that finds the delimiter.
pub open spec fn delimiter_regex(opt: Opt) -> Seq<char> {
    if opt.greedy_delimiter {
        opt.regex_bag.unwrap().greedy@
    } else {
        opt.regex_bag.unwrap().normal@
    }
}

/// What cutting `input` with the plan that suits `opt` gives (see
/// `cut_with_suitable_plan`): no plan when no field is needed, else a plan
/// of the suitable kind, made for the options, whose run printed `out` after
/// `before` and ended with `r`.
pub open spec fn suitable_plan_result(
    input: Seq<u8>,
    opt: Opt,
    whole: bool,
    before: Seq<u8>,
    out: Seq<u8>,
    r: Result<(), TucError>,
) -> bool {
    &&& no_plan_for(opt) ==> (r matches Err(e) && e@ == ErrorView::NoIndices) && out == before
    &&& !no_plan_for(opt) && uses_replaced_delimiter(opt) ==> exists|p: FieldPlan<
        FixedFinder,
        FixedFinderRev,
    >|
        p.finder.pattern@ == opt.replace_delimiter.unwrap()@ && p.finder_rev.pattern@
            == opt.replace_delimiter.unwrap()@ && plan_for(p, opt) && #[trigger] cut_result(
            p,
            input,
            opt,
            whole,
            before,
            out,
            r,
        )
    &&& !no_plan_for(opt) && !uses_replaced_delimiter(opt) && opt.regex_bag is Some ==> exists|
        p: FieldPlan<RegexFinder, RegexFinder>,
    |
        p.finder.regex@ == delimiter_regex(opt) && p.finder.trim_empty == (opt.bounds_type
            == BoundsType::Characters) && p.finder_rev.regex@ == delimiter_regex(opt)
            && p.finder_rev.trim_empty == (opt.bounds_type == BoundsType::Characters) && plan_for(p, opt)
            && #[trigger] cut_result(p, input, opt, whole, before, out, r)
    &&& !no_plan_for(opt) && opt.regex_bag is None && opt.greedy_delimiter ==> exists|
        p: FieldPlan<FixedGreedyFinder, FixedGreedyFinderRev>,
    |
        p.finder.pattern@ == opt.delimiter@ && p.finder_rev.pattern@ == opt.delimiter@ && plan_for(p, opt)
            && #[trigger] cut_result(p, input, opt, whole, before, out, r)
    &&& !no_plan_for(opt) && opt.regex_bag is None && !opt.greedy_delimiter ==> exists|
        p: FieldPlan<FixedFinder, FixedFinderRev>,
    |
        p.finder.pattern@ == opt.delimiter@ && p.finder_rev.pattern@ == opt.delimiter@ && plan_for(p, opt)
            && #[trigger] cut_result(p, input, opt, whole, before, out, r)
}

/// Cut `input` (line by line, or as a single piece when `whole`) with the
/// plan that suits the options: the replacement delimiter as fixed text when
/// a regular expression was compressed into it, else the regular
/// expression, else the delimiter as fixed text, greedy when asked.
pub fn cut_with_suitable_plan(input: &[u8], stdout: &mut Vec<u8>, opt: &Opt, whole: bool) -> (r: Result<(), TucError>)
    requires
        opt_ready(*opt),
        sides_fit(opt.bounds@),
    ensures
        suitable_plan_result(input@, *opt, whole, old(stdout)@, final(stdout)@, r),
{
    let mut compressed_line_buf: Vec<u8> = Vec::new();
    let should_compress = opt.compress_delimiter && (opt.bounds_type == BoundsType::Fields
        || opt.bounds_type == BoundsType::Lines);
    if should_compress && opt.regex_bag.is_some() && opt.replace_delimiter.is_some() {
        let rd = opt.replace_delimiter.as_ref().unwrap();
        let mut plan = match FieldPlan::from_opt_fixed_with_custom_delimiter(opt, rd.as_slice()) {
            Ok(p) => p,
            Err(e) => {
                return Err(e);
            },
        };
        let ghost p0 = plan;
        let res = run_plan(input, stdout, opt, &mut compressed_line_buf, &mut plan, whole);
        proof {
            assert(cut_result(p0, input@, *opt, whole, old(stdout)@, stdout@, res));
            crate::plan::lemma_plan_for_needs_fields(p0, *opt);
        }
        res
    } else if opt.regex_bag.is_some() {
        let bag = opt.regex_bag.as_ref().unwrap();
        let regex = if opt.greedy_delimiter {
            &bag.greedy
        } else {
            &bag.normal
        };
        let trim_empty = opt.bounds_type == BoundsType::Characters;
        let mut plan = match FieldPlan::from_opt_regex(opt, regex.duplicate(), trim_empty) {
            Ok(p) => p,
            Err(e) => {
                return Err(e);
            },
        };
        let ghost p0 = plan;
        let res = run_plan(input, stdout, opt, &mut compressed_line_buf, &mut plan, whole);
        proof {
            assert(cut_result(p0, input@, *opt, whole, old(stdout)@, stdout@, res));
            crate::plan::lemma_plan_for_needs_fields(p0, *opt);
        }
        res
    } else if opt.greedy_delimiter {
        let mut plan = match FieldPlan::from_opt_fixed_greedy(opt) {
            Ok(p) => p,
            Err(e) => {
                return Err(e);
            },
        };
        let ghost p0 = plan;
        let res = run_plan(input, stdout, opt, &mut compressed_line_buf, &mut plan, whole);
        proof {
            assert(cut_result(p0, input@, *opt, whole, old(stdout)@, stdout@, res));
            crate::plan::lemma_plan_for_needs_fields(p0, *opt);
        }
        res
    } else {
        let mut plan = match FieldPlan::from_opt_memmem(opt) {
            Ok(p) => p,
            Err(e) => {
                return Err(e);
            },
        };
        let ghost p0 = plan;
        let res = run_plan(input, stdout, opt, &mut compressed_line_buf, &mut plan, whole);
        proof {
            assert(cut_result(p0, input@, *opt, whole, old(stdout)@, stdout@, res));
            crate::plan::lemma_plan_for_needs_fields(p0, *opt);
        }
        res
    }
}

/// Cut every line of `input` (see `process_lines_with_plan`) with the plan
/// that suits the options (see `cut_with_suitable_plan`).
pub fn read_and_cut_str(input: &[u8], stdout: &mut Vec<u8>, opt: &Opt) -> (r: Result<(), TucError>)
    requires
        opt_ready(*opt),
        sides_fit(opt.bounds@),
    ensures
        suitable_plan_result(input@, *opt, false, old(stdout)@, final(stdout)@, r),
{
    cut_with_suitable_plan(input, stdout, opt, false)
}

/// The plan of the kind that suits the options (see
/// `cut_with_suitable_plan`), kept from one line to the next so that lines
/// can be cut one at a time.
pub enum SuitablePlan {
    /// The replacement delimiter, as fixed text.
    Replaced(FieldPlan<FixedFinder, FixedFinderRev>),
    /// The regular expression.
    Regex(FieldPlan<RegexFinder, RegexFinder>),
    /// The delimiter as fixed text, greedy.
    Greedy(FieldPlan<FixedGreedyFinder, FixedGreedyFinderRev>),
    /// The delimiter as fixed text.
    Fixed(FieldPlan<FixedFinder, FixedFinderRev>),
}

/// The plan can cut a line for these options.
pub open spec fn plan_ready_for<F: DelimiterFinder, R: DelimiterFinder>(p: FieldPlan<F, R>, opt: Opt) -> bool {
    plan_ready(p) && (needs_num_fields(opt) ==> p.extract_func == ExtractMode::EveryField)
}

/// The plan after cutting `line`: its stored fields as the cut leaves them,
/// everything else as it was.
pub open spec fn plan_after_line<F: DelimiterFinder, R: DelimiterFinder>(
    new: FieldPlan<F, R>,
    old: FieldPlan<F, R>,
    line: Seq<u8>,
    opt: Opt,
    eol: Seq<u8>,
) -> bool {
    let o = spec_cut_str_with(line, opt, old, ranges_view(old.positive_fields@), ranges_view(old.negative_fields@), eol);
    &&& ranges_view(new.positive_fields@) == o.2
    &&& ranges_view(new.negative_fields@) == o.3
    &&& new.positive_indices@ == old.positive_indices@
    &&& new.negative_indices@ == old.negative_indices@
    &&& new.extract_func == old.extract_func
    &&& new.finder == old.finder
    &&& new.finder_rev == old.finder_rev
    &&& plan_ready_for(new, opt)
}

impl SuitablePlan {
    /// The plan can cut a line for these options.
    pub open spec fn ready(self, opt: Opt) -> bool {
        match self {
            SuitablePlan::Replaced(p) => plan_ready_for(p, opt),
            SuitablePlan::Regex(p) => plan_ready_for(p, opt),
            SuitablePlan::Greedy(p) => plan_ready_for(p, opt),
            SuitablePlan::Fixed(p) => plan_ready_for(p, opt),
        }
    }

    /// The plan is the one `cut_with_suitable_plan` makes for `opt`.
    pub open spec fn made_for(self, opt: Opt) -> bool {
        match self {
            SuitablePlan::Replaced(p) => uses_replaced_delimiter(opt) && p.finder.pattern@
                == opt.replace_delimiter.unwrap()@ && p.finder_rev.pattern@ == opt.replace_delimiter.unwrap()@
                && plan_for(p, opt),
            SuitablePlan::Regex(p) => !uses_replaced_delimiter(opt) && opt.regex_bag is Some && p.finder.regex@
                == delimiter_regex(opt) && p.finder.trim_empty == (opt.bounds_type == BoundsType::Characters)
                && p.finder_rev.regex@ == delimiter_regex(opt) && p.finder_rev.trim_empty == (opt.bounds_type
                == BoundsType::Characters) && plan_for(p, opt),
            SuitablePlan::Greedy(p) => opt.regex_bag is None && opt.greedy_delimiter && p.finder.pattern@
                == opt.delimiter@ && p.finder_rev.pattern@ == opt.delimiter@ && plan_for(p, opt),
            SuitablePlan::Fixed(p) => opt.regex_bag is None && !opt.greedy_delimiter && p.finder.pattern@
                == opt.delimiter@ && p.finder_rev.pattern@ == opt.delimiter@ && plan_for(p, opt),
        }
    }

    /// What cutting the record (a line with or without its terminator)
    /// prints, and the error it stops on; the terminator follows the cut.
    pub open spec fn record_result(self, record: Seq<u8>, opt: Opt) -> (Seq<u8>, Option<ErrorView>) {
        let line = trim_record(record, opt.eol);
        let eol = seq![spec_eol_byte(opt.eol)];
        match self {
            SuitablePlan::Replaced(p) => spec_cut_str(line, opt, p, eol),
            SuitablePlan::Regex(p) => spec_cut_str(line, opt, p, eol),
            SuitablePlan::Greedy(p) => spec_cut_str(line, opt, p, eol),
            SuitablePlan::Fixed(p) => spec_cut_str(line, opt, p, eol),
        }
    }

    /// `self` is `old` after cutting the record: same kind, stored fields
    /// as the cut leaves them.
    pub open spec fn after_record(self, old: SuitablePlan, record: Seq<u8>, opt: Opt) -> bool {
        let line = trim_record(record, opt.eol);
        let eol = seq![spec_eol_byte(opt.eol)];
        match (old, self) {
            (SuitablePlan::Replaced(p0), SuitablePlan::Replaced(p1)) => plan_after_line(p1, p0, line, opt, eol),
            (SuitablePlan::Regex(p0), SuitablePlan::Regex(p1)) => plan_after_line(p1, p0, line, opt, eol),
            (SuitablePlan::Greedy(p0), SuitablePlan::Greedy(p1)) => plan_after_line(p1, p0, line, opt, eol),
            (SuitablePlan::Fixed(p0), SuitablePlan::Fixed(p1)) => plan_after_line(p1, p0, line, opt, eol),
            _ => false,
        }
    }

    /// Make the plan that suits the options; none when no field is needed.
    pub fn for_opt(opt: &Opt) -> (r: Result<SuitablePlan, TucError>)
        requires
            sides_fit(opt.bounds@),
        ensures
            match r {
                Ok(p) => p.made_for(*opt) && p.ready(*opt),
                Err(e) => no_plan_for(*opt) && e@ == ErrorView::NoIndices,
            },
    {
        let should_compress = opt.compress_delimiter && (opt.bounds_type == BoundsType::Fields
            || opt.bounds_type == BoundsType::Lines);
        if should_compress && opt.regex_bag.is_some() && opt.replace_delimiter.is_some() {
            let rd = opt.replace_delimiter.as_ref().unwrap();
            match FieldPlan::from_opt_fixed_with_custom_delimiter(opt, rd.as_slice()) {
                Ok(p) => {
                    proof {
                        crate::plan::lemma_plan_for_needs_fields(p, *opt);
                    }
                    Ok(SuitablePlan::Replaced(p))
                },
                Err(e) => Err(e),
            }
        } else if opt.regex_bag.is_some() {
            let bag = opt.regex_bag.as_ref().unwrap();
            let regex = if opt.greedy_delimiter {
                &bag.greedy
            } else {
                &bag.normal
            };
            let trim_empty = opt.bounds_type == BoundsType::Characters;
            match FieldPlan::from_opt_regex(opt, regex.duplicate(), trim_empty) {
                Ok(p) => Ok(SuitablePlan::Regex(p)),
                Err(e) => Err(e),
            }
        } else if opt.greedy_delimiter {
            match FieldPlan::from_opt_fixed_greedy(opt) {
                Ok(p) => Ok(SuitablePlan::Greedy(p)),
                Err(e) => Err(e),
            }
        } else {
            match FieldPlan::from_opt_memmem(opt) {
                Ok(p) => Ok(SuitablePlan::Fixed(p)),
                Err(e) => Err(e),
            }
        }
    }

    /// Cut one record (a line with or without its terminator) with the plan,
    /// then print the terminator (see `cut_str`).
    pub fn cut_record(&mut self, record: &[u8], opt: &Opt, stdout: &mut Vec<u8>, compressed_line_buf: &mut Vec<
        u8,
    >) -> (r: Result<(), TucError>)
        requires
            opt_ready(*opt),
            old(self).ready(*opt),
        ensures
            final(stdout)@ == old(stdout)@ + old(self).record_result(record@, *opt).0,
            match r {
                Ok(_) => old(self).record_result(record@, *opt).1 is None,
                Err(e) => old(self).record_result(record@, *opt).1 == Some(e@),
            },
            final(self).after_record(*old(self), record@, *opt),
    {
        let line = trim_record_exec(record, opt.eol);
        let eol: Vec<u8> = vec![opt.eol.byte()];
        proof {
            assert(eol@ =~= seq![spec_eol_byte(opt.eol)]);
        }
        match self {
            SuitablePlan::Replaced(p) => cut_str(line, opt, stdout, compressed_line_buf, eol.as_slice(), p),
            SuitablePlan::Regex(p) => cut_str(line, opt, stdout, compressed_line_buf, eol.as_slice(), p),
            SuitablePlan::Greedy(p) => cut_str(line, opt, stdout, compressed_line_buf, eol.as_slice(), p),
            SuitablePlan::Fixed(p) => cut_str(line, opt, stdout, compressed_line_buf, eol.as_slice(), p),
        }
    }
}

} // verus!
