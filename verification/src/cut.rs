//! Choose how to cut the input: as bytes, as lines, on the fast path for
//! fields, or as text.
use crate::cut_bytes::{read_and_cut_bytes, spec_cut_bytes};
use crate::cut_lines::{can_be_streamed, read_and_cut_lines, spec_cut_lines_forward};
use crate::cut_str::{opt_ready, read_and_cut_str, suitable_plan_result};
use crate::fast_lane::{fast_unsupported, read_and_cut_text_as_bytes, spec_fast_input, FastOpt};
use crate::options::{spec_eol_byte, BoundsType, Opt, ReplaceDelimiterFn};
use crate::userbounds::{BofView, BoundOrFiller};
use crate::plan::sides_fit;
use crate::side::{ErrorView, TucError};
use crate::text::utf8_error_text;
use vstd::prelude::*;
use vstd::utf8::valid_utf8;

verus! {

/// The ways to cut the input.
pub enum CutPath {
    Bytes,
    Lines,
    FastLane,
    Text,
}

/// The way the options choose: bytes and lines by their kind, fields on
/// the fast path when it supports the options, else as text.
pub open spec fn spec_cut_path(opt: Opt) -> CutPath {
    if opt.bounds_type == BoundsType::Bytes {
        CutPath::Bytes
    } else if opt.bounds_type == BoundsType::Lines {
        CutPath::Lines
    } else if opt.delimiter@.len() == 1 && !fast_unsupported(opt) {
        CutPath::FastLane
    } else {
        CutPath::Text
    }
}

/// The fast-path options made from `opt` (see `FastOpt::try_from`).
pub open spec fn fast_opt_of(opt: &Opt) -> FastOpt<'_> {
    FastOpt {
        delimiter: opt.delimiter@[0],
        join: opt.join,
        eol: opt.eol,
        bounds: &opt.bounds,
        only_delimited: opt.only_delimited,
        trim: opt.trim,
    }
}

/// Cut the whole input the way the options choose (see `spec_cut_path`).
pub fn cut_input(input: &[u8], stdout: &mut Vec<u8>, opt: &Opt) -> (r: Result<(), TucError>)
    requires
        opt_ready(*opt),
        sides_fit(opt.bounds@),
    ensures
        spec_cut_path(*opt) == CutPath::Bytes ==> final(stdout)@ == old(stdout)@ + spec_cut_bytes(input@, *opt).0
            && match r {
            Ok(_) => spec_cut_bytes(input@, *opt).1 is None,
            Err(e) => spec_cut_bytes(input@, *opt).1 == Some(e@),
        },
        spec_cut_path(*opt) == CutPath::Lines && can_be_streamed(*opt) ==> match r {
            Ok(_) => spec_cut_lines_forward(input@, *opt).1 is None && final(stdout)@ == old(stdout)@
                + spec_cut_lines_forward(input@, *opt).0 + seq![spec_eol_byte(opt.eol)],
            Err(e) => spec_cut_lines_forward(input@, *opt).1 == Some(e@) && final(stdout)@ == old(stdout)@
                + spec_cut_lines_forward(input@, *opt).0,
        },
        spec_cut_path(*opt) == CutPath::Lines && !can_be_streamed(*opt) && !valid_utf8(input@) ==> (r matches Err(
            e,
        ) && e@ == ErrorView::InvalidUtf8(utf8_error_text(input@))) && final(stdout)@ == old(stdout)@,
        spec_cut_path(*opt) == CutPath::Lines && !can_be_streamed(*opt) && valid_utf8(input@) && r is Ok
            ==> final(stdout)@.len() > 0 && final(stdout)@.last() == spec_eol_byte(opt.eol)
            && suitable_plan_result(input@, *opt, true, old(stdout)@, final(stdout)@.drop_last(), r),
        spec_cut_path(*opt) == CutPath::Lines && !can_be_streamed(*opt) && valid_utf8(input@) && r is Err
            ==> suitable_plan_result(input@, *opt, true, old(stdout)@, final(stdout)@, r),
        spec_cut_path(*opt) == CutPath::FastLane ==> final(stdout)@ == old(stdout)@ + spec_fast_input(
            input@,
            fast_opt_of(opt),
        ).0 && match r {
            Ok(_) => spec_fast_input(input@, fast_opt_of(opt)).1 is None,
            Err(e) => spec_fast_input(input@, fast_opt_of(opt)).1 == Some(e@),
        },
        spec_cut_path(*opt) == CutPath::Text ==> suitable_plan_result(
            input@,
            *opt,
            false,
            old(stdout)@,
            final(stdout)@,
            r,
        ),
{
    if opt.bounds_type == BoundsType::Bytes {
        read_and_cut_bytes(input, stdout, opt)
    } else if opt.bounds_type == BoundsType::Lines {
        read_and_cut_lines(input, stdout, opt)
    } else {
        match FastOpt::try_from(opt) {
            Ok(fast_opt) => read_and_cut_text_as_bytes(input, stdout, &fast_opt),
            Err(_) => read_and_cut_str(input, stdout, opt),
        }
    }
}

/// The options hold together as cutting needs (see `opt_ready`) and no
/// side of a bound is at the largest machine value but an open right side
/// (see `sides_fit`).
pub fn options_ready(opt: &Opt) -> (r: bool)
    ensures
        r == (opt_ready(*opt) && sides_fit(opt.bounds@)),
{
    if opt.trim.is_some() && opt.regex_bag.is_none() && opt.delimiter.len() == 0 {
        return false;
    }
    if opt.compress_delimiter && opt.regex_bag.is_some() && opt.replace_delimiter.is_none() {
        return false;
    }
    match opt.replace_delimiter_fn {
        Some(ReplaceDelimiterFn::Regex) => {
            if opt.regex_bag.is_none() || opt.replace_delimiter.is_none() {
                return false;
            }
        },
        Some(ReplaceDelimiterFn::Fixed) => {
            if opt.replace_delimiter.is_none() {
                return false;
            }
        },
        None => {},
    }
    let ghost s = opt.bounds@;
    let mut i: usize = 0;
    while i < opt.bounds.list.len()
        invariant
            i <= opt.bounds.list@.len(),
            s == opt.bounds@,
            opt_ready(*opt),
            forall|j: int|
                0 <= j < i ==> (#[trigger] s[j] matches BofView::Bound(b) ==> b.l.value < usize::MAX && (
                b.r.is_negative ==> b.r.value < usize::MAX)),
        decreases opt.bounds.list.len() - i,
    {
        proof {
            assert(s[i as int] == opt.bounds.list@[i as int]@);
        }
        match &opt.bounds.list[i] {
            BoundOrFiller::Bound(b) => {
                if b.l.value == usize::MAX || (b.r.is_negative && b.r.value == usize::MAX) {
                    return false;
                }
            },
            BoundOrFiller::Filler(_) => {},
        }
        i = i + 1;
    }
    true
}

} // verus!
