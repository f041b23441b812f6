//! Cut lines: stream them when the bounds move forward only, else cut the
//! whole input as one text whose delimiter is the line terminator.
use crate::cut_str::{
    cut_with_suitable_plan, lemma_split_records_empty, lemma_split_records_last, lemma_split_records_step,
    opt_ready, split_records, suitable_plan_result,
};
use crate::options::{spec_eol_byte, Opt, EOL};
use crate::plan::sides_fit;
use crate::side::{ErrorView, TucError};
use crate::text::{append_bytes, check_utf8, find_byte, first_index_of, utf8_error_text};
use crate::userbounds::{BofView, BoundOrFiller, UserBoundsView};
use crate::userboundslist::spec_is_forward_only;
use vstd::prelude::*;
use vstd::utf8::valid_utf8;

verus! {

/// A line as read: without its one terminator byte.
pub open spec fn strip_eol(r: Seq<u8>, eol: EOL) -> Seq<u8> {
    if r.len() > 0 && r.last() == spec_eol_byte(eol) {
        r.drop_last()
    } else {
        r
    }
}

/// The 0-indexed line `k` lies within the bound (sides counted from the end
/// never match: the number of lines is not known).
pub open spec fn line_matches(b: UserBoundsView, k: int) -> bool {
    !b.l.is_negative && !b.r.is_negative && b.l.value <= k && k <= b.r.value
}

/// What line `k` prints, starting at entry `idx` of the bounds with a line
/// break owed (`pend`) before the next printed line; also the entry reached
/// and whether a break is then owed. Fillers print as they come; a bound
/// that covers the line prints it, and when the line is its last one the
/// next entry is looked at too (with a break between bounds when joining).
#[verifier::opaque]
pub open spec fn fwd_line(bofs: Seq<BofView>, idx: int, k: int, line: Seq<u8>, opt: Opt, pend: bool) -> (
    Seq<u8>,
    int,
    bool,
)
    decreases bofs.len() - idx,
{
    if idx < 0 || idx >= bofs.len() {
        (Seq::empty(), idx, pend)
    } else {
        match bofs[idx] {
            BofView::Filler(f) => {
                let r = fwd_line(bofs, idx + 1, k, line, opt, pend);
                (f + r.0, r.1, r.2)
            },
            BofView::Bound(b) => if line_matches(b, k) {
                let head = (if pend {
                    seq![spec_eol_byte(opt.eol)]
                } else {
                    Seq::empty()
                }) + line;
                if !b.r.is_negative && b.r.value == k {
                    let sep = if opt.join && idx + 1 != bofs.len() {
                        seq![spec_eol_byte(opt.eol)]
                    } else {
                        Seq::empty()
                    };
                    let r = fwd_line(bofs, idx + 1, k, line, opt, false);
                    (head + sep + r.0, r.1, r.2)
                } else {
                    (head, idx, true)
                }
            } else {
                (Seq::empty(), idx, pend)
            },
        }
    }
}

/// What the lines print from line `k` on, with the entry reached and the
/// error met; reading stops once every entry is done. A newline-ended line
/// is read as text: one that is not UTF-8 stops with an error.
#[verifier::opaque]
pub open spec fn fwd_lines(lines: Seq<Seq<u8>>, k: int, idx: int, pend: bool, opt: Opt) -> (
    Seq<u8>,
    int,
    Option<ErrorView>,
)
    decreases lines.len(),
{
    if lines.len() == 0 {
        (Seq::empty(), idx, None)
    } else if opt.eol == EOL::Newline && !valid_utf8(lines[0]) {
        (Seq::empty(), idx, Some(ErrorView::StreamNotUtf8))
    } else {
        let r = fwd_line(opt.bounds@, idx, k, strip_eol(lines[0], opt.eol), opt, pend);
        if r.1 >= opt.bounds@.len() {
            (r.0, r.1, None)
        } else {
            let rest = fwd_lines(lines.drop_first(), k + 1, r.1, r.2, opt);
            (r.0 + rest.0, rest.1, rest.2)
        }
    }
}

/// What streaming the lines prints and the error it ends with: a bound
/// still waiting when the input is exhausted is out of bounds.
pub open spec fn spec_cut_lines_forward(input: Seq<u8>, opt: Opt) -> (Seq<u8>, Option<ErrorView>) {
    let r = fwd_lines(split_records(input, spec_eol_byte(opt.eol)), 0, 0, false, opt);
    if r.2 is Some {
        (r.0, r.2)
    } else if 0 <= r.1 < opt.bounds@.len() && opt.bounds@[r.1] is Bound {
        let b = opt.bounds@[r.1]->Bound_0;
        (r.0, Some(ErrorView::BoundOutOfBounds(b.l, b.r)))
    } else {
        (r.0, None)
    }
}

proof fn lemma_fwd_lines_step(lines: Seq<Seq<u8>>, k: int, idx: int, pend: bool, opt: Opt)
    requires
        lines.len() > 0,
    ensures
        fwd_lines(lines, k, idx, pend, opt) == if opt.eol == EOL::Newline && !valid_utf8(lines[0]) {
            (Seq::<u8>::empty(), idx, Some(ErrorView::StreamNotUtf8))
        } else {
            let r = fwd_line(opt.bounds@, idx, k, strip_eol(lines[0], opt.eol), opt, pend);
            if r.1 >= opt.bounds@.len() {
                (r.0, r.1, None)
            } else {
                let rest = fwd_lines(lines.drop_first(), k + 1, r.1, r.2, opt);
                (r.0 + rest.0, rest.1, rest.2)
            }
        },
{
    reveal(fwd_lines);
}

proof fn lemma_fwd_lines_empty(k: int, idx: int, pend: bool, opt: Opt)
    ensures
        fwd_lines(Seq::empty(), k, idx, pend, opt) == (Seq::<u8>::empty(), idx, None::<ErrorView>),
{
    reveal(fwd_lines);
}

proof fn lemma_fwd_line_unfold(bofs: Seq<BofView>, idx: int, k: int, line: Seq<u8>, opt: Opt, pend: bool)
    ensures
        fwd_line(bofs, idx, k, line, opt, pend) == if idx < 0 || idx >= bofs.len() {
            (Seq::<u8>::empty(), idx, pend)
        } else {
            match bofs[idx] {
                BofView::Filler(f) => {
                    let r = fwd_line(bofs, idx + 1, k, line, opt, pend);
                    (f + r.0, r.1, r.2)
                },
                BofView::Bound(b) => if line_matches(b, k) {
                    let head = (if pend {
                        seq![spec_eol_byte(opt.eol)]
                    } else {
                        Seq::empty()
                    }) + line;
                    if !b.r.is_negative && b.r.value == k {
                        let sep = if opt.join && idx + 1 != bofs.len() {
                            seq![spec_eol_byte(opt.eol)]
                        } else {
                            Seq::empty()
                        };
                        let r = fwd_line(bofs, idx + 1, k, line, opt, false);
                        (head + sep + r.0, r.1, r.2)
                    } else {
                        (head, idx, true)
                    }
                } else {
                    (Seq::empty(), idx, pend)
                },
            }
        },
{
    reveal(fwd_line);
}

proof fn lemma_fwd_line_idx(bofs: Seq<BofView>, idx: int, k: int, line: Seq<u8>, opt: Opt, pend: bool)
    requires
        0 <= idx,
    ensures
        idx <= fwd_line(bofs, idx, k, line, opt, pend).1,
        bofs.len() <= idx ==> fwd_line(bofs, idx, k, line, opt, pend).1 == idx,
        idx <= bofs.len() ==> fwd_line(bofs, idx, k, line, opt, pend).1 <= bofs.len(),
    decreases bofs.len() - idx,
{
    lemma_fwd_line_unfold(bofs, idx, k, line, opt, pend);
    if idx < bofs.len() {
        lemma_fwd_line_idx(bofs, idx + 1, k, line, opt, pend);
        lemma_fwd_line_idx(bofs, idx + 1, k, line, opt, false);
    }
}

/// Print what line `k` gives (see `fwd_line`), starting at entry `idx`.
fn emit_line(line: &[u8], k: usize, idx: usize, pend: bool, opt: &Opt, stdout: &mut Vec<u8>) -> (r: (usize, bool))
    requires
        idx <= opt.bounds@.len(),
    ensures
        ({
            let s = fwd_line(opt.bounds@, idx as int, k as int, line@, *opt, pend);
            &&& final(stdout)@ == old(stdout)@ + s.0
            &&& r.0 as int == s.1
            &&& r.1 == s.2
        }),
{
    let ghost bofs = opt.bounds@;
    let ghost total = fwd_line(bofs, idx as int, k as int, line@, *opt, pend);
    let ghost start = stdout@;
    let n = opt.bounds.list.len();
    let term = opt.eol.byte();
    let mut i = idx;
    let mut p = pend;
    proof {
        assert(stdout@ =~= start + Seq::<u8>::empty());
        assert(total.0 =~= Seq::<u8>::empty() + total.0);
    }
    while i < n
        invariant
            n == bofs.len(),
            bofs == opt.bounds@,
            idx <= i <= n,
            term == spec_eol_byte(opt.eol),
            total == fwd_line(bofs, idx as int, k as int, line@, *opt, pend),
            ({
                let r = fwd_line(bofs, i as int, k as int, line@, *opt, p);
                &&& total.0 == stdout@.subrange(start.len() as int, stdout@.len() as int) + r.0
                &&& total.1 == r.1
                &&& total.2 == r.2
            }),
            stdout@.len() >= start.len(),
            stdout@.subrange(0, start.len() as int) == start,
            start == old(stdout)@,
        decreases n - i,
    {
        let ghost printed = stdout@.subrange(start.len() as int, stdout@.len() as int);
        let ghost before = stdout@;
        proof {
            assert(bofs[i as int] == opt.bounds.list@[i as int]@);
            lemma_fwd_line_unfold(bofs, i as int, k as int, line@, *opt, p);
        }
        match &opt.bounds.list[i] {
            BoundOrFiller::Filler(f) => {
                append_bytes(stdout, f.as_slice());
                proof {
                    assert(stdout@.subrange(0, start.len() as int) =~= start);
                    assert(stdout@.subrange(start.len() as int, stdout@.len() as int) =~= printed + f@);
                }
                i = i + 1;
            },
            BoundOrFiller::Bound(b) => {
                let matches = !b.l.is_negative && !b.r.is_negative && b.l.value <= k && k <= b.r.value;
                if !matches {
                    proof {
                        assert(total.0 =~= printed + Seq::<u8>::empty());
                        assert(stdout@ =~= start + total.0);
                    }
                    return (i, p);
                }
                if p {
                    stdout.push(term);
                }
                append_bytes(stdout, line);
                if !b.r.is_negative && b.r.value == k {
                    i = i + 1;
                    p = false;
                    if opt.join && i != n {
                        stdout.push(term);
                    }
                    proof {
                        assert(stdout@.subrange(0, start.len() as int) =~= start);
                        assert(stdout@.subrange(start.len() as int, stdout@.len() as int) =~= printed
                            + stdout@.subrange(before.len() as int, stdout@.len() as int));
                    }
                } else {
                    proof {
                        assert(stdout@.subrange(start.len() as int, stdout@.len() as int) =~= printed
                            + stdout@.subrange(before.len() as int, stdout@.len() as int));
                        assert(stdout@ =~= start + total.0);
                    }
                    return (i, true);
                }
            },
        }
    }
    proof {
        lemma_fwd_line_unfold(bofs, i as int, k as int, line@, *opt, p);
        assert(stdout@ =~= start + total.0);
    }
    (i, p)
}

/// Stream the lines of `input` (see `spec_cut_lines_forward`).
pub fn cut_lines_forward_only(input: &[u8], stdout: &mut Vec<u8>, opt: &Opt) -> (r: Result<(), TucError>)
    ensures
        final(stdout)@ == old(stdout)@ + spec_cut_lines_forward(input@, *opt).0,
        match r {
            Ok(_) => spec_cut_lines_forward(input@, *opt).1 is None,
            Err(e) => spec_cut_lines_forward(input@, *opt).1 == Some(e@),
        },
{
    let ghost start = stdout@;
    let term = opt.eol.byte();
    let ghost total = fwd_lines(split_records(input@, term), 0, 0, false, *opt);
    let n = opt.bounds.list.len();
    let is_newline = match opt.eol {
        EOL::Newline => true,
        EOL::Zero => false,
    };
    let len = input.len();
    let mut pos: usize = 0;
    let mut k: usize = 0;
    let mut idx: usize = 0;
    let mut pend = false;
    proof {
        assert(input@.subrange(0, len as int) =~= input@);
        assert(total.0 =~= Seq::<u8>::empty() + total.0);
        assert(stdout@.subrange(start.len() as int, stdout@.len() as int) =~= Seq::<u8>::empty());
        assert(stdout@.subrange(0, start.len() as int) =~= start);
    }
    while pos < len
        invariant
            pos <= len,
            len == input@.len(),
            k <= pos,
            idx <= n,
            n == opt.bounds@.len(),
            term == spec_eol_byte(opt.eol),
            is_newline == (opt.eol == EOL::Newline),
            total == fwd_lines(split_records(input@, term), 0, 0, false, *opt),
            ({
                let r = fwd_lines(split_records(input@.subrange(pos as int, len as int), term), k as int, idx as int, pend, *opt);
                &&& total.0 == stdout@.subrange(start.len() as int, stdout@.len() as int) + r.0
                &&& total.1 == r.1
                &&& total.2 == r.2
            }),
            stdout@.len() >= start.len(),
            stdout@.subrange(0, start.len() as int) == start,
            start == old(stdout)@,
        decreases len - pos,
    {
        let rest = &input[pos..len];
        let end: usize = match find_byte(rest, term) {
            Some(i) => pos + i + 1,
            None => len,
        };
        let ghost lines = split_records(input@.subrange(pos as int, len as int), term);
        let ghost printed = stdout@.subrange(start.len() as int, stdout@.len() as int);
        proof {
            assert(rest@ == input@.subrange(pos as int, len as int));
            match first_index_of(rest@, term) {
                Some(i) => {
                    lemma_split_records_step(rest@, term, i);
                    assert(rest@.subrange(i + 1, rest@.len() as int) =~= input@.subrange(end as int, len as int));
                    assert(rest@.subrange(0, i + 1) =~= input@.subrange(pos as int, end as int));
                },
                None => {
                    lemma_split_records_last(rest@, term);
                    assert(input@.subrange(end as int, len as int) =~= Seq::<u8>::empty());
                    lemma_split_records_empty(term);
                    assert(rest@ =~= input@.subrange(pos as int, end as int));
                },
            }
            assert(lines[0] == input@.subrange(pos as int, end as int));
            assert(lines.drop_first() =~= split_records(input@.subrange(end as int, len as int), term));
            lemma_fwd_lines_step(lines, k as int, idx as int, pend, *opt);
        }
        let record = &input[pos..end];
        if is_newline {
            match check_utf8(record) {
                Ok(_) => {},
                Err(_) => {
                    proof {
                        assert(total.0 =~= printed + Seq::<u8>::empty());
                        assert(stdout@ =~= start + total.0);
                    }
                    return Err(TucError::StreamNotUtf8);
                },
            }
        }
        let line: &[u8] = if record.len() > 0 && record[record.len() - 1] == term {
            proof {
                assert(record@.subrange(0, record@.len() - 1) =~= record@.drop_last());
            }
            &record[0..record.len() - 1]
        } else {
            record
        };
        proof {
            assert(line@ == strip_eol(record@, opt.eol));
            lemma_fwd_line_idx(opt.bounds@, idx as int, k as int, line@, *opt, pend);
        }
        let ghost before = stdout@;
        let (next_idx, next_pend) = emit_line(line, k, idx, pend, opt, stdout);
        proof {
            assert(stdout@.subrange(0, start.len() as int) =~= start);
            assert(stdout@.subrange(start.len() as int, stdout@.len() as int) =~= printed
                + stdout@.subrange(before.len() as int, stdout@.len() as int));
        }
        idx = next_idx;
        pend = next_pend;
        k = k + 1;
        if idx >= n {
            proof {
                assert(input@.subrange(len as int, len as int) =~= Seq::<u8>::empty());
                lemma_split_records_empty(term);
                lemma_fwd_lines_empty(k as int, idx as int, pend, *opt);
                assert(total.0 =~= stdout@.subrange(start.len() as int, stdout@.len() as int)
                    + Seq::<u8>::empty());
            }
            pos = len;
        } else {
            pos = end;
        }
    }
    proof {
        assert(input@.subrange(pos as int, len as int) =~= Seq::<u8>::empty());
        lemma_split_records_empty(term);
        lemma_fwd_lines_empty(k as int, idx as int, pend, *opt);
        assert(stdout@ =~= start + total.0);
    }
    if idx < n {
        match &opt.bounds.list[idx] {
            BoundOrFiller::Bound(b) => {
                proof {
                    assert(opt.bounds@[idx as int] == opt.bounds.list@[idx as int]@);
                }
                return Err(TucError::BoundOutOfBounds(b.l, b.r));
            },
            BoundOrFiller::Filler(_) => {
                proof {
                    assert(opt.bounds@[idx as int] == opt.bounds.list@[idx as int]@);
                }
            },
        }
    }
    Ok(())
}

/// Cut the whole input as one text whose delimiter is the line terminator,
/// with no terminator after it; the input must be UTF-8.
pub fn cut_lines(input: &[u8], stdout: &mut Vec<u8>, opt: &Opt) -> (r: Result<(), TucError>)
    requires
        opt_ready(*opt),
        sides_fit(opt.bounds@),
    ensures
        !valid_utf8(input@) ==> (r matches Err(e) && e@ == ErrorView::InvalidUtf8(utf8_error_text(input@)))
            && final(stdout)@ == old(stdout)@,
        valid_utf8(input@) ==> suitable_plan_result(input@, *opt, true, old(stdout)@, final(stdout)@, r),
{
    match check_utf8(input) {
        Ok(_) => {},
        Err(m) => {
            return Err(TucError::InvalidUtf8(m));
        },
    }
    cut_with_suitable_plan(input, stdout, opt, true)
}

/// The lines can be streamed: the bounds move forward only and nothing
/// needs the whole input (complement, compression).
pub open spec fn can_be_streamed(opt: Opt) -> bool {
    !opt.complement && !opt.compress_delimiter && spec_is_forward_only(opt.bounds@)
}

/// Cut lines: stream them when the bounds allow it (see
/// `cut_lines_forward_only`), else cut the whole input (see `cut_lines`);
/// when the cut succeeds, end the output with the line terminator.
pub fn read_and_cut_lines(input: &[u8], stdout: &mut Vec<u8>, opt: &Opt) -> (r: Result<(), TucError>)
    requires
        opt_ready(*opt),
        sides_fit(opt.bounds@),
    ensures
        can_be_streamed(*opt) ==> match r {
            Ok(_) => spec_cut_lines_forward(input@, *opt).1 is None && final(stdout)@ == old(stdout)@
                + spec_cut_lines_forward(input@, *opt).0 + seq![spec_eol_byte(opt.eol)],
            Err(e) => spec_cut_lines_forward(input@, *opt).1 == Some(e@) && final(stdout)@ == old(stdout)@
                + spec_cut_lines_forward(input@, *opt).0,
        },
        !can_be_streamed(*opt) && !valid_utf8(input@) ==> (r matches Err(e) && e@ == ErrorView::InvalidUtf8(
            utf8_error_text(input@),
        )) && final(stdout)@ == old(stdout)@,
        !can_be_streamed(*opt) && valid_utf8(input@) && r is Ok ==> final(stdout)@.len() > 0
            && final(stdout)@.last() == spec_eol_byte(opt.eol) && suitable_plan_result(
            input@,
            *opt,
            true,
            old(stdout)@,
            final(stdout)@.drop_last(),
            r,
        ),
        !can_be_streamed(*opt) && valid_utf8(input@) && r is Err ==> suitable_plan_result(
            input@,
            *opt,
            true,
            old(stdout)@,
            final(stdout)@,
            r,
        ),
{
    let streamed = !opt.complement && !opt.compress_delimiter && opt.bounds.is_forward_only();
    let r = if streamed {
        cut_lines_forward_only(input, stdout, opt)
    } else {
        cut_lines(input, stdout, opt)
    };
    let ghost mid = stdout@;
    if r.is_ok() {
        stdout.push(opt.eol.byte());
        proof {
            assert(stdout@.drop_last() =~= mid);
        }
    }
    r
}

} // verus!
