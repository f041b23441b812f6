//! A faster path for the common case: forward fields split on a one-byte
//! delimiter, with no replacement, compression or JSON.
use crate::cut_str::{
    lead_trim, lemma_split_records_empty, spec_trim, lemma_split_records_last, lemma_split_records_step,
    split_records, trail_trim, trim_record, trim_record_exec,
};
use crate::options::{spec_eol_byte, BoundsType, Opt, Trim, EOL};
use crate::search::{find_fwd, ints, lemma_find_fwd_wf, memchr_find_all, occurs_at};
use crate::side::{ErrorView, Side, TucError};
use crate::text::{append_bytes, find_byte, first_index_of};
use crate::userbounds::{spec_try_into_range, BofView, BoundOrFiller, UserBounds, UserBoundsView};
use crate::userboundslist::UserBoundsList;
use vstd::prelude::*;

verus! {

/// What `bstr::ByteSlice::trim_start_with` leaves of `b` when it drops the
/// leading characters equal to the character of code `d`.
pub uninterp spec fn char_trim_start(b: Seq<u8>, d: u8) -> Seq<u8>;

/// What `bstr::ByteSlice::trim_end_with` leaves of `b` when it drops the
/// trailing characters equal to the character of code `d`.
pub uninterp spec fn char_trim_end(b: Seq<u8>, d: u8) -> Seq<u8>;

/// The character `c` is the one whose code is the byte `d`.
fn is_delimiter_char(c: char, d: u8) -> (r: bool)
    ensures
        r == (c as u32 == d as u32),
{
    (c as u32) == (d as u32)
}

/// `b` without its leading characters equal to `d` as a character
/// (`bstr::ByteSlice::trim_start_with`). bstr decodes `b` as UTF-8, an invalid
/// sequence standing for U+FFFD, and cuts where the first other character
/// starts. An ASCII byte always decodes to itself, so for an ASCII `d` this
/// drops exactly the leading run of `d` bytes; for another `d` the result is
/// only named.
#[verifier::external_body]
fn trim_start_chars(b: &[u8], d: u8) -> (r: &[u8])
    ensures
        r@ == char_trim_start(b@, d),
        d < 128 ==> r@ == b@.subrange(lead_trim(b@, seq![d]), b@.len() as int),
{
    bstr::ByteSlice::trim_start_with(b, |c| is_delimiter_char(c, d))
}

/// `b` without its trailing characters equal to `d` as a character
/// (`bstr::ByteSlice::trim_end_with`), decoded as for `trim_start_chars`; for
/// an ASCII `d` this drops exactly the trailing run of `d` bytes.
#[verifier::external_body]
fn trim_end_chars(b: &[u8], d: u8) -> (r: &[u8])
    ensures
        r@ == char_trim_end(b@, d),
        d < 128 ==> r@ == b@.subrange(0, b@.len() - trail_trim(b@, seq![d])),
{
    bstr::ByteSlice::trim_end_with(b, |c| is_delimiter_char(c, d))
}

/// The options of the fast path.
#[derive(Debug)]
pub struct FastOpt<'a> {
    pub delimiter: u8,
    pub join: bool,
    pub eol: EOL,
    pub bounds: &'a UserBoundsList,
    pub only_delimited: bool,
    pub trim: Option<Trim>,
}

/// Some bound of the list has a fallback of its own.
pub open spec fn bounds_have_fallbacks(s: Seq<BofView>) -> bool {
    exists|i: int| 0 <= i < s.len() && (#[trigger] s[i] matches BofView::Bound(b) && b.fallback_oob is Some)
}

/// Some bound has a fallback of its own, or there is a general one.
pub open spec fn uses_fallbacks(opt: Opt) -> bool {
    opt.fallback_oob is Some || bounds_have_fallbacks(opt.bounds@)
}

/// The options ask for something the fast path does not do (it prints no
/// fallback).
pub open spec fn fast_unsupported(o: Opt) -> bool {
    o.complement || o.greedy_delimiter || o.compress_delimiter || o.json || o.bounds_type
        != BoundsType::Fields || o.replace_delimiter is Some || o.regex_bag is Some || uses_fallbacks(o)
}

/// Whether some bound has a fallback of its own, or there is a general one.
fn has_fallbacks(opt: &Opt) -> (r: bool)
    ensures
        r == uses_fallbacks(*opt),
{
    if opt.fallback_oob.is_some() {
        return true;
    }
    let ghost s = opt.bounds@;
    let mut i: usize = 0;
    while i < opt.bounds.list.len()
        invariant
            i <= opt.bounds.list@.len(),
            s == opt.bounds@,
            opt.fallback_oob is None,
            forall|j: int| 0 <= j < i ==> !(#[trigger] s[j] matches BofView::Bound(b) && b.fallback_oob is Some),
        decreases opt.bounds.list.len() - i,
    {
        proof {
            assert(s[i as int] == opt.bounds.list@[i as int]@);
        }
        match &opt.bounds.list[i] {
            BoundOrFiller::Bound(b) => {
                if b.fallback_oob.is_some() {
                    return true;
                }
            },
            BoundOrFiller::Filler(_) => {},
        }
        i = i + 1;
    }
    false
}

impl<'a> FastOpt<'a> {
    /// The fast-path options for `value`, when it asks only for what the fast
    /// path does: a one-byte delimiter, fields, no complement, greedy or
    /// compressed delimiter, JSON, replacement, regular expression or
    /// fallback.
    pub fn try_from(value: &'a Opt) -> (r: Result<FastOpt<'a>, &'static str>)
        ensures
            value.delimiter@.len() != 1 ==> (r matches Err(m) && m@
                == "Delimiter must be 1 byte wide for FastOpt"@),
            value.delimiter@.len() == 1 && fast_unsupported(*value) ==> (r matches Err(m) && m@
                == "FastOpt supports solely forward fields, join and single-character delimiters"@),
            value.delimiter@.len() == 1 && !fast_unsupported(*value) ==> (r matches Ok(f) && f.delimiter
                == value.delimiter@[0] && f.join == value.join && f.eol == value.eol && f.bounds
                == &value.bounds && f.only_delimited == value.only_delimited && f.trim == value.trim),
    {
        if value.delimiter.len() != 1 {
            return Err("Delimiter must be 1 byte wide for FastOpt");
        }
        if value.complement || value.greedy_delimiter || value.compress_delimiter || value.json
            || value.bounds_type != BoundsType::Fields || value.replace_delimiter.is_some()
            || value.regex_bag.is_some() || has_fallbacks(value) {
            return Err("FastOpt supports solely forward fields, join and single-character delimiters");
        }
        Ok(
            FastOpt {
                delimiter: value.delimiter[0],
                join: value.join,
                eol: value.eol,
                bounds: &value.bounds,
                only_delimited: value.only_delimited,
                trim: value.trim,
            },
        )
    }
}

/// The line without the delimiters that `kind` trims, as characters.
pub open spec fn fast_trim(b: Seq<u8>, kind: Trim, d: u8) -> Seq<u8> {
    match kind {
        Trim::Both => char_trim_end(char_trim_start(b, d), d),
        Trim::Left => char_trim_start(b, d),
        Trim::Right => char_trim_end(b, d),
    }
}

/// The line the fast path looks at.
pub open spec fn fast_trimmed(line: Seq<u8>, opt: FastOpt) -> Seq<u8> {
    match opt.trim {
        Some(k) => fast_trim(line, k, opt.delimiter),
        None => line,
    }
}

/// Trim the delimiter `delimiter` from the ends of `buffer` that `trim_kind`
/// names. For an ASCII delimiter this drops the same bytes as trimming the
/// delimiter as text (`cut_str::trim`).
pub fn trim<'b>(buffer: &'b [u8], trim_kind: &Trim, delimiter: u8) -> (r: &'b [u8])
    ensures
        r@ == fast_trim(buffer@, *trim_kind, delimiter),
        delimiter < 128 ==> r@ == spec_trim(buffer@, *trim_kind, seq![delimiter]),
{
    match trim_kind {
        Trim::Both => trim_end_chars(trim_start_chars(buffer, delimiter), delimiter),
        Trim::Left => trim_start_chars(buffer, delimiter),
        Trim::Right => trim_end_chars(buffer, delimiter),
    }
}

/// Where each field of `buf` ends: at each delimiter, up to the one that ends
/// the last interesting field, else also at the end of the line.
pub open spec fn field_ends(buf: Seq<u8>, d: u8, last: Side) -> Seq<int> {
    let ps = find_fwd(buf, seq![d], 0);
    if !last.is_negative && last.value < ps.len() {
        ps.take(last.value + 1)
    } else {
        ps.push(buf.len() as int)
    }
}

/// Field ends are increasing and within the line.
pub open spec fn ends_wf(e: Seq<int>, n: int) -> bool {
    &&& forall|k: int| 0 <= k < e.len() ==> 0 <= #[trigger] e[k] <= n
    &&& forall|i: int, j: int| 0 <= i < j < e.len() ==> #[trigger] e[i] < #[trigger] e[j]
}

/// What a bound prints on the fast path: the text from the start of its
/// first field to the end of its last one, then the delimiter when joining.
pub open spec fn spec_output_part(line: Seq<u8>, b: UserBoundsView, ends: Seq<int>, opt: FastOpt) -> (
    Seq<u8>,
    Option<ErrorView>,
) {
    match spec_try_into_range(b.l, b.r, ends.len() as int) {
        Err(e) => (Seq::empty(), Some(e)),
        Ok((s, e)) => {
            let start = if s == 0 {
                0
            } else {
                ends[s - 1] + 1
            };
            (
                line.subrange(start, ends[e - 1]) + if opt.join && !b.is_last {
                    seq![opt.delimiter]
                } else {
                    Seq::empty()
                },
                None,
            )
        },
    }
}

/// What the bounds and fillers print on the fast path, up to the first error.
#[verifier::opaque]
pub open spec fn spec_fast_emit(line: Seq<u8>, ends: Seq<int>, opt: FastOpt, bofs: Seq<BofView>) -> (
    Seq<u8>,
    Option<ErrorView>,
)
    decreases bofs.len(),
{
    if bofs.len() == 0 {
        (Seq::empty(), None)
    } else {
        let prev = spec_fast_emit(line, ends, opt, bofs.drop_last());
        if prev.1 is Some {
            prev
        } else {
            let cur = match bofs.last() {
                BofView::Filler(f) => (f, None),
                BofView::Bound(b) => spec_output_part(line, b, ends, opt),
            };
            (prev.0 + cur.0, cur.1)
        }
    }
}

/// What the fast path prints for one line, and the error it stops on.
/// An empty line prints the terminator alone (nothing with
/// `only_delimited`); a line without the delimiter prints nothing with
/// `only_delimited`, and itself when the only entry asks for a field; else
/// each bound and filler, then the terminator.
pub open spec fn spec_cut_fast_lane(line: Seq<u8>, opt: FastOpt, last: Side) -> (Seq<u8>, Option<ErrorView>) {
    let buf = fast_trimmed(line, opt);
    let eol = seq![spec_eol_byte(opt.eol)];
    if buf.len() == 0 {
        (
            if opt.only_delimited {
                Seq::empty()
            } else {
                eol
            },
            None,
        )
    } else if find_fwd(buf, seq![opt.delimiter], 0).len() == 0 && opt.only_delimited {
        (Seq::empty(), None)
    } else {
        let ends = field_ends(buf, opt.delimiter, last);
        if ends.len() == 1 && opt.bounds@.len() == 1 && ends[0] == buf.len() {
            (buf + eol, None)
        } else {
            let e = spec_fast_emit(buf, ends, opt, opt.bounds@);
            if e.1 is Some {
                e
            } else {
                (e.0 + eol, None)
            }
        }
    }
}

proof fn lemma_fast_emit_step(line: Seq<u8>, ends: Seq<int>, opt: FastOpt, bofs: Seq<BofView>, i: int)
    requires
        0 <= i < bofs.len(),
    ensures
        ({
            let prev = spec_fast_emit(line, ends, opt, bofs.subrange(0, i));
            let cur = match bofs[i] {
                BofView::Filler(f) => (f, None),
                BofView::Bound(b) => spec_output_part(line, b, ends, opt),
            };
            spec_fast_emit(line, ends, opt, bofs.subrange(0, i + 1)) == if prev.1 is Some {
                prev
            } else {
                (prev.0 + cur.0, cur.1)
            }
        }),
{
    reveal(spec_fast_emit);
    assert(bofs.subrange(0, i + 1).drop_last() =~= bofs.subrange(0, i));
}

proof fn lemma_fast_emit_error_stays(line: Seq<u8>, ends: Seq<int>, opt: FastOpt, s: Seq<BofView>, k: int)
    requires
        0 <= k <= s.len(),
        spec_fast_emit(line, ends, opt, s.subrange(0, k)).1 is Some,
    ensures
        spec_fast_emit(line, ends, opt, s) == spec_fast_emit(line, ends, opt, s.subrange(0, k)),
    decreases s.len() - k,
{
    if k < s.len() {
        lemma_fast_emit_step(line, ends, opt, s, k);
        lemma_fast_emit_error_stays(line, ends, opt, s, k + 1);
    } else {
        assert(s.subrange(0, k) =~= s);
    }
}

/// The positions of a byte found left to right are increasing and inside
/// the text.
proof fn lemma_byte_positions(buf: Seq<u8>, d: u8)
    ensures
        ({
            let ps = find_fwd(buf, seq![d], 0);
            &&& forall|k: int| 0 <= k < ps.len() ==> 0 <= #[trigger] ps[k] < buf.len()
            &&& forall|i: int, j: int| 0 <= i < j < ps.len() ==> #[trigger] ps[i] < #[trigger] ps[j]
        }),
{
    let ps = find_fwd(buf, seq![d], 0);
    lemma_find_fwd_wf(buf, seq![d], 0);
    assert forall|k: int| 0 <= k < ps.len() implies 0 <= #[trigger] ps[k] < buf.len() by {
        assert(occurs_at(buf, seq![d], ps[k]));
    }
    assert forall|i: int, j: int| 0 <= i < j < ps.len() implies #[trigger] ps[i] < #[trigger] ps[j] by {
        lemma_increasing(ps, i, j);
    }
}

proof fn lemma_increasing(ps: Seq<int>, i: int, j: int)
    requires
        0 <= i < j < ps.len(),
        forall|k: int| 0 <= k < ps.len() - 1 ==> #[trigger] ps[k] + 1 <= ps[k + 1],
    ensures
        ps[i] < ps[j],
    decreases j - i,
{
    if j > i + 1 {
        lemma_increasing(ps, i, j - 1);
        assert(ps[j - 1] + 1 <= ps[j]);
    } else {
        assert(ps[i] + 1 <= ps[i + 1]);
    }
}

/// Print what a bound selects, from the field ends of the line.
fn output_parts(line: &[u8], b: &UserBounds, fields: &[usize], stdout: &mut Vec<u8>, opt: &FastOpt) -> (r:
    Result<(), TucError>)
    requires
        fields@.len() > 0,
        ends_wf(ints(fields@), line@.len() as int),
    ensures
        final(stdout)@ == old(stdout)@ + spec_output_part(line@, b@, ints(fields@), *opt).0,
        match r {
            Ok(_) => spec_output_part(line@, b@, ints(fields@), *opt).1 is None,
            Err(e) => spec_output_part(line@, b@, ints(fields@), *opt).1 == Some(e@),
        },
{
    let ghost e = ints(fields@);
    let r = match b.try_into_range(fields.len()) {
        Ok(r) => r,
        Err(err) => {
            proof {
                assert(stdout@ =~= old(stdout)@ + Seq::<u8>::empty());
            }
            return Err(err);
        },
    };
    proof {
        assert(e[r.end - 1] == fields@[r.end - 1] as int);
        if r.start > 0 {
            assert(e[r.start - 1] == fields@[r.start - 1] as int);
            assert(e[r.start - 1] < e[r.end - 1]);
        }
    }
    let idx_start = if r.start == 0 {
        0
    } else {
        fields[r.start - 1] + 1
    };
    let idx_end = fields[r.end - 1];
    append_bytes(stdout, &line[idx_start..idx_end]);
    if opt.join && !b.is_last {
        stdout.push(opt.delimiter);
    }
    proof {
        if opt.join && !b.is_last {
            assert(stdout@ =~= old(stdout)@ + spec_output_part(line@, b@, e, *opt).0);
        } else {
            assert(stdout@ =~= old(stdout)@ + spec_output_part(line@, b@, e, *opt).0);
        }
    }
    Ok(())
}

/// Print every bound and filler on the fast path, up to the first error.
fn fast_emit(line: &[u8], fields: &Vec<usize>, opt: &FastOpt, stdout: &mut Vec<u8>) -> (r: Result<(), TucError>)
    requires
        fields@.len() > 0,
        ends_wf(ints(fields@), line@.len() as int),
    ensures
        ({
            let o = spec_fast_emit(line@, ints(fields@), *opt, opt.bounds@);
            &&& final(stdout)@ == old(stdout)@ + o.0
            &&& match r {
                Ok(_) => o.1 is None,
                Err(e) => o.1 == Some(e@),
            }
        }),
{
    let ghost ends = ints(fields@);
    let ghost s = opt.bounds@;
    let ghost start = stdout@;
    let mut i: usize = 0;
    proof {
        reveal(spec_fast_emit);
        assert(s.subrange(0, 0) =~= Seq::<BofView>::empty());
        assert(start + Seq::<u8>::empty() =~= start);
    }
    while i < opt.bounds.list.len()
        invariant
            i <= opt.bounds.list@.len(),
            s == opt.bounds@,
            ends == ints(fields@),
            fields@.len() > 0,
            ends_wf(ends, line@.len() as int),
            spec_fast_emit(line@, ends, *opt, s.subrange(0, i as int)).1 is None,
            stdout@ == start + spec_fast_emit(line@, ends, *opt, s.subrange(0, i as int)).0,
            start == old(stdout)@,
        decreases opt.bounds.list.len() - i,
    {
        proof {
            lemma_fast_emit_step(line@, ends, *opt, s, i as int);
            assert(s[i as int] == opt.bounds.list@[i as int]@);
        }
        match &opt.bounds.list[i] {
            BoundOrFiller::Filler(f) => {
                append_bytes(stdout, f.as_slice());
            },
            BoundOrFiller::Bound(b) => {
                let res = output_parts(line, b, fields.as_slice(), stdout, opt);
                match res {
                    Err(e) => {
                        proof {
                            assert(stdout@ =~= start + spec_fast_emit(line@, ends, *opt, s.subrange(0, i + 1)).0);
                            assert(s.subrange(0, s.len() as int) =~= s);
                            lemma_fast_emit_error_stays(line@, ends, *opt, s, i + 1);
                        }
                        return Err(e);
                    },
                    Ok(_) => {},
                }
            },
        }
        proof {
            assert(stdout@ =~= start + spec_fast_emit(line@, ends, *opt, s.subrange(0, i + 1)).0);
        }
        i = i + 1;
    }
    proof {
        assert(s.subrange(0, s.len() as int) =~= s);
    }
    Ok(())
}

/// Cut one line on the fast path (see `spec_cut_fast_lane`). `fields` ends up
/// holding where each field of the line ends, when the line was looked at.
/// The fast path prints no fallback: its bounds have none (as `try_from`
/// makes sure).
pub fn cut_str_fast_lane(
    initial_buffer: &[u8],
    opt: &FastOpt,
    stdout: &mut Vec<u8>,
    fields: &mut Vec<usize>,
    last_interesting_field: Side,
) -> (r: Result<(), TucError>)
    requires
        !bounds_have_fallbacks(opt.bounds@),
    ensures
        final(stdout)@ == old(stdout)@ + spec_cut_fast_lane(initial_buffer@, *opt, last_interesting_field).0,
        match r {
            Ok(_) => spec_cut_fast_lane(initial_buffer@, *opt, last_interesting_field).1 is None,
            Err(e) => spec_cut_fast_lane(initial_buffer@, *opt, last_interesting_field).1 == Some(e@),
        },
        fast_trimmed(initial_buffer@, *opt).len() == 0 ==> final(fields)@ == old(fields)@,
        fast_trimmed(initial_buffer@, *opt).len() > 0 && find_fwd(
            fast_trimmed(initial_buffer@, *opt),
            seq![opt.delimiter],
            0,
        ).len() == 0 && opt.only_delimited ==> final(fields)@.len() == 0,
        fast_trimmed(initial_buffer@, *opt).len() > 0 && !(find_fwd(
            fast_trimmed(initial_buffer@, *opt),
            seq![opt.delimiter],
            0,
        ).len() == 0 && opt.only_delimited) ==> ints(final(fields)@) == field_ends(
            fast_trimmed(initial_buffer@, *opt),
            opt.delimiter,
            last_interesting_field,
        ),
{
    let buffer = match &opt.trim {
        Some(k) => trim(initial_buffer, k, opt.delimiter),
        None => initial_buffer,
    };
    let ghost eol = seq![spec_eol_byte(opt.eol)];
    if buffer.len() == 0 {
        if !opt.only_delimited {
            stdout.push(opt.eol.byte());
        }
        proof {
            assert(stdout@ =~= old(stdout)@ + spec_cut_fast_lane(initial_buffer@, *opt, last_interesting_field).0);
        }
        return Ok(());
    }
    let ghost ps = find_fwd(buffer@, seq![opt.delimiter], 0);
    let last = last_interesting_field;
    fields.clear();
    let positions = memchr_find_all(opt.delimiter, buffer);
    let mut curr_field: usize = 0;
    let mut reached = false;
    while curr_field < positions.len()
        invariant_except_break
            !reached,
            last.is_negative || last.value >= curr_field,
        invariant
            ints(positions@) == ps,
            curr_field <= positions@.len(),
            ints(fields@) == ps.take(curr_field as int),
            fields@.len() == curr_field,
        ensures
            ints(fields@) == ps.take(curr_field as int),
            fields@.len() == curr_field,
            curr_field <= ps.len(),
            reached ==> !last.is_negative && last.value + 1 == curr_field,
            !reached ==> curr_field == ps.len() && !(!last.is_negative && last.value < ps.len()),
        decreases positions.len() - curr_field,
    {
        fields.push(positions[curr_field]);
        proof {
            assert(ints(fields@) =~= ps.take(curr_field + 1));
        }
        curr_field = curr_field + 1;
        if !last.is_negative && last.value == curr_field - 1 {
            reached = true;
            break;
        }
    }
    if curr_field == 0 && opt.only_delimited {
        proof {
            assert(stdout@ =~= old(stdout)@ + spec_cut_fast_lane(initial_buffer@, *opt, last_interesting_field).0);
        }
        return Ok(());
    }
    if !reached {
        fields.push(buffer.len());
    }
    let ghost ends = field_ends(buffer@, opt.delimiter, last);
    proof {
        assert(ps.len() == positions@.len());
        if reached {
            assert(ints(fields@) =~= ends);
        } else {
            assert(ps.take(ps.len() as int) =~= ps);
            assert(ints(fields@.push(buffer.len())) =~= ints(fields@).push(buffer.len() as int));
            assert(ints(fields@) =~= ends);
        }
        lemma_byte_positions(buffer@, opt.delimiter);
        assert forall|k: int| 0 <= k < ends.len() implies 0 <= #[trigger] ends[k] <= buffer@.len() by {
            if k < ps.len() {
                assert(ends[k] == ps[k]);
            }
        }
        assert forall|i: int, j: int| 0 <= i < j < ends.len() implies #[trigger] ends[i] < #[trigger] ends[j] by {
            assert(ends[i] == ps[i]);
            if j < ps.len() {
                assert(ends[j] == ps[j]);
            }
        }
    }
    if fields.len() == 1 && opt.bounds.list.len() == 1 && fields[0] == buffer.len() {
        append_bytes(stdout, buffer);
    } else {
        let res = fast_emit(buffer, fields, opt, stdout);
        match res {
            Err(e) => {
                return Err(e);
            },
            Ok(_) => {},
        }
    }
    stdout.push(opt.eol.byte());
    proof {
        assert(stdout@ =~= old(stdout)@ + spec_cut_fast_lane(initial_buffer@, *opt, last_interesting_field).0);
    }
    Ok(())
}

/// What the fast path prints for each line, in order, up to the first error.
#[verifier::opaque]
pub open spec fn spec_fast_process(lines: Seq<Seq<u8>>, opt: FastOpt, last: Side) -> (Seq<u8>, Option<ErrorView>)
    decreases lines.len(),
{
    if lines.len() == 0 {
        (Seq::empty(), None)
    } else {
        let o = spec_cut_fast_lane(trim_record(lines[0], opt.eol), opt, last);
        if o.1 is Some {
            o
        } else {
            let rest = spec_fast_process(lines.drop_first(), opt, last);
            (o.0 + rest.0, rest.1)
        }
    }
}

/// What the fast path prints for the whole input.
pub open spec fn spec_fast_input(input: Seq<u8>, opt: FastOpt) -> (Seq<u8>, Option<ErrorView>) {
    spec_fast_process(split_records(input, spec_eol_byte(opt.eol)), opt, opt.bounds.last_interesting_field)
}

proof fn lemma_fast_process_step(lines: Seq<Seq<u8>>, opt: FastOpt, last: Side)
    requires
        lines.len() > 0,
    ensures
        ({
            let o = spec_cut_fast_lane(trim_record(lines[0], opt.eol), opt, last);
            spec_fast_process(lines, opt, last) == if o.1 is Some {
                o
            } else {
                let rest = spec_fast_process(lines.drop_first(), opt, last);
                (o.0 + rest.0, rest.1)
            }
        }),
{
    reveal(spec_fast_process);
}

/// Cut every line of `input` on the fast path (lines end with the
/// terminator of the options; a newline may follow a carriage return, which
/// goes too); stops on the first error. The bounds carry no fallback.
pub fn read_and_cut_text_as_bytes(input: &[u8], stdout: &mut Vec<u8>, opt: &FastOpt) -> (r: Result<(), TucError>)
    requires
        !bounds_have_fallbacks(opt.bounds@),
    ensures
        final(stdout)@ == old(stdout)@ + spec_fast_input(input@, *opt).0,
        match r {
            Ok(_) => spec_fast_input(input@, *opt).1 is None,
            Err(e) => spec_fast_input(input@, *opt).1 == Some(e@),
        },
{
    let mut fields: Vec<usize> = Vec::new();
    let last = opt.bounds.last_interesting_field;
    let term = opt.eol.byte();
    let len = input.len();
    let mut pos: usize = 0;
    let ghost start = stdout@;
    let ghost total = spec_fast_input(input@, *opt);
    proof {
        assert(input@.subrange(0, len as int) =~= input@);
        assert(total.0 =~= Seq::<u8>::empty() + total.0);
        assert(stdout@.subrange(start.len() as int, stdout@.len() as int) =~= Seq::<u8>::empty());
        assert(stdout@.subrange(0, start.len() as int) =~= start);
    }
    while pos < len
        invariant
            pos <= len,
            len == input@.len(),
            term == spec_eol_byte(opt.eol),
            last == opt.bounds.last_interesting_field,
            !bounds_have_fallbacks(opt.bounds@),
            total == spec_fast_input(input@, *opt),
            total.0 == stdout@.subrange(start.len() as int, stdout@.len() as int) + spec_fast_process(
                split_records(input@.subrange(pos as int, len as int), term),
                *opt,
                last,
            ).0,
            total.1 == spec_fast_process(split_records(input@.subrange(pos as int, len as int), term), *opt, last).1,
            stdout@.len() >= start.len(),
            stdout@.subrange(0, start.len() as int) == start,
            start == old(stdout)@,
        decreases len - pos,
    {
        let rest = &input[pos..len];
        let end: usize = match find_byte(rest, term) {
            Some(i) => pos + i + 1,
            None => len,
        };
        let ghost lines = split_records(input@.subrange(pos as int, len as int), term);
        proof {
            assert(rest@ == input@.subrange(pos as int, len as int));
            match first_index_of(rest@, term) {
                Some(i) => {
                    lemma_split_records_step(rest@, term, i);
                    assert(rest@.subrange(i + 1, rest@.len() as int) =~= input@.subrange(end as int, len as int));
                    assert(rest@.subrange(0, i + 1) =~= input@.subrange(pos as int, end as int));
                },
                None => {
                    lemma_split_records_last(rest@, term);
                    assert(input@.subrange(end as int, len as int) =~= Seq::<u8>::empty());
                    lemma_split_records_empty(term);
                    assert(rest@ =~= input@.subrange(pos as int, end as int));
                },
            }
            assert(lines[0] == input@.subrange(pos as int, end as int));
            assert(lines.drop_first() =~= split_records(input@.subrange(end as int, len as int), term));
            lemma_fast_process_step(lines, *opt, last);
        }
        let record = &input[pos..end];
        let line = trim_record_exec(record, opt.eol);
        let ghost o = spec_cut_fast_lane(line@, *opt, last);
        let ghost before = stdout@;
        let res = cut_str_fast_lane(line, opt, stdout, &mut fields, last);
        proof {
            assert(stdout@ == before + o.0);
            assert(stdout@.subrange(0, start.len() as int) =~= start);
            assert(stdout@.subrange(start.len() as int, stdout@.len() as int) =~= before.subrange(
                start.len() as int,
                before.len() as int,
            ) + o.0);
        }
        match res {
            Err(e) => {
                proof {
                    assert(total.0 =~= before.subrange(start.len() as int, before.len() as int) + o.0);
                    assert(stdout@ =~= start + total.0);
                }
                return Err(e);
            },
            Ok(_) => {},
        }
        pos = end;
    }
    proof {
        lemma_split_records_empty(term);
        reveal(spec_fast_process);
        assert(input@.subrange(pos as int, len as int) =~= Seq::<u8>::empty());
        assert(stdout@ =~= start + total.0);
    }
    Ok(())
}

/// Cut one record (a line with or without its terminator) on the fast path
/// (see `spec_cut_fast_lane`); the terminator follows the cut. The bounds
/// carry no fallback.
pub fn cut_fast_record(record: &[u8], opt: &FastOpt, stdout: &mut Vec<u8>, fields: &mut Vec<usize>) -> (r: Result<
    (),
    TucError,
>)
    requires
        !bounds_have_fallbacks(opt.bounds@),
    ensures
        final(stdout)@ == old(stdout)@ + spec_cut_fast_lane(
            trim_record(record@, opt.eol),
            *opt,
            opt.bounds.last_interesting_field,
        ).0,
        match r {
            Ok(_) => spec_cut_fast_lane(trim_record(record@, opt.eol), *opt, opt.bounds.last_interesting_field).1 is None,
            Err(e) => spec_cut_fast_lane(trim_record(record@, opt.eol), *opt, opt.bounds.last_interesting_field).1
                == Some(e@),
        },
{
    let line = trim_record_exec(record, opt.eol);
    cut_str_fast_lane(line, opt, stdout, fields, opt.bounds.last_interesting_field)
}

} // verus!
