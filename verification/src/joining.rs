//! What joining the selected parts prints: every bound but the last one is
//! followed by the join delimiter, however many fields it spans.
use crate::cut_str::{join_delimiter, spec_bof_out, spec_cut_line, spec_emit, spec_line_bounds};
use crate::fast_lane::{fast_trimmed, field_ends, spec_cut_fast_lane, spec_fast_emit, spec_output_part, FastOpt};
use crate::laws::join_with;
use crate::options::{spec_eol_byte, Opt};
use crate::search::find_fwd;
use crate::side::{ErrorView, Side};
use crate::userbounds::BofView;
use vstd::prelude::*;

verus! {

/// Only bounds, and only the final one marked last (as a parsed list of
/// bounds without fillers is).
pub open spec fn bounds_marked(bofs: Seq<BofView>) -> bool {
    forall|i: int|
        0 <= i < bofs.len() ==> (#[trigger] bofs[i]) is Bound && (bofs[i]->Bound_0.is_last <==> i == bofs.len() - 1)
}

/// Texts joined with `d`, one more text after them.
proof fn lemma_join_push(p: Seq<Seq<u8>>, x: Seq<u8>, d: Seq<u8>)
    requires
        p.len() > 0,
    ensures
        join_with(p.push(x), d) == join_with(p, d) + d + x,
    decreases p.len(),
{
    if p.len() == 1 {
        assert(p.push(x).drop_first() =~= seq![x]);
        assert(p.push(x)[0] == p[0]);
        assert(join_with(seq![x], d) == x);
        assert(join_with(p, d) == p[0]);
        assert(join_with(p.push(x), d) == p[0] + d + join_with(seq![x], d));
    } else {
        lemma_join_push(p.drop_first(), x, d);
        assert(p.push(x).drop_first() =~= p.drop_first().push(x));
        assert(p.push(x)[0] == p[0]);
        assert(join_with(p.push(x), d) == p[0] + d + join_with(p.drop_first().push(x), d));
        assert(join_with(p, d) == p[0] + d + join_with(p.drop_first(), d));
        assert(p[0] + d + (join_with(p.drop_first(), d) + d + x) =~= p[0] + d + join_with(p.drop_first(), d) + d + x);
    }
}

/// The parts that the bounds print on the fast path without joining.
pub open spec fn fast_parts(line: Seq<u8>, ends: Seq<int>, opt: FastOpt, bofs: Seq<BofView>) -> Seq<Seq<u8>> {
    Seq::new(bofs.len(), |i: int| spec_output_part(line, bofs[i]->Bound_0, ends, FastOpt { join: false, ..opt }).0)
}

proof fn lemma_fast_join_prefix(line: Seq<u8>, ends: Seq<int>, opt: FastOpt, bofs: Seq<BofView>, k: int)
    requires
        opt.join,
        bounds_marked(bofs),
        1 <= k <= bofs.len(),
        spec_fast_emit(line, ends, opt, bofs.subrange(0, k)).1 is None,
    ensures
        spec_fast_emit(line, ends, opt, bofs.subrange(0, k)).0 == join_with(
            fast_parts(line, ends, opt, bofs).subrange(0, k),
            seq![opt.delimiter],
        ) + if k < bofs.len() {
            seq![opt.delimiter]
        } else {
            Seq::empty()
        },
    decreases k,
{
    reveal(spec_fast_emit);
    let d = seq![opt.delimiter];
    let nj = FastOpt { join: false, ..opt };
    let sub = bofs.subrange(0, k);
    let ps = fast_parts(line, ends, opt, bofs);
    assert(sub.drop_last() =~= bofs.subrange(0, k - 1));
    assert(sub.last() == bofs[k - 1]);
    let b = bofs[k - 1]->Bound_0;
    assert(bofs[k - 1] is Bound);
    let prev = spec_fast_emit(line, ends, opt, bofs.subrange(0, k - 1));
    assert(prev.1 is None);
    let cur = spec_output_part(line, b, ends, opt);
    assert(cur.0 == spec_output_part(line, b, ends, nj).0 + if !b.is_last {
        d
    } else {
        Seq::empty()
    });
    assert(ps[k - 1] == spec_output_part(line, b, ends, nj).0);
    if k == 1 {
        assert(bofs.subrange(0, 0) =~= Seq::<BofView>::empty());
        assert(ps.subrange(0, 1) =~= seq![ps[0]]);
        assert(prev.0 =~= Seq::<u8>::empty());
        assert(join_with(ps.subrange(0, 1), d) == ps[0]);
        assert(prev.0 + cur.0 =~= cur.0);
    } else {
        lemma_fast_join_prefix(line, ends, opt, bofs, k - 1);
        assert(ps.subrange(0, k) =~= ps.subrange(0, k - 1).push(ps[k - 1]));
        lemma_join_push(ps.subrange(0, k - 1), ps[k - 1], d);
    }
    assert(spec_fast_emit(line, ends, opt, sub) == (prev.0 + cur.0, cur.1));
    if k < bofs.len() {
        assert(!b.is_last);
    } else {
        assert(b.is_last);
    }
}

/// Joining on the fast path: the bounds print the parts they print without
/// joining, separated by the delimiter, so that every bound but the last is
/// followed by the delimiter however many fields it spans (`1:2,4` joined
/// on `a-b-c-d` prints `a-b-d`).
pub proof fn law_fast_join_separates_parts(line: Seq<u8>, opt: FastOpt, last: Side)
    requires
        opt.join,
        bounds_marked(opt.bounds@),
        opt.bounds@.len() >= 2,
        fast_trimmed(line, opt).len() > 0,
        !(find_fwd(fast_trimmed(line, opt), seq![opt.delimiter], 0).len() == 0 && opt.only_delimited),
        spec_cut_fast_lane(line, opt, last).1 is None,
    ensures
        spec_cut_fast_lane(line, opt, last).0 == join_with(
            fast_parts(
                fast_trimmed(line, opt),
                field_ends(fast_trimmed(line, opt), opt.delimiter, last),
                opt,
                opt.bounds@,
            ),
            seq![opt.delimiter],
        ) + seq![spec_eol_byte(opt.eol)],
{
    let buf = fast_trimmed(line, opt);
    let ends = field_ends(buf, opt.delimiter, last);
    let bofs = opt.bounds@;
    assert(bofs.subrange(0, bofs.len() as int) =~= bofs);
    assert(fast_parts(buf, ends, opt, bofs).subrange(0, bofs.len() as int) =~= fast_parts(buf, ends, opt, bofs));
    lemma_fast_join_prefix(buf, ends, opt, bofs, bofs.len() as int);
    assert(join_with(fast_parts(buf, ends, opt, bofs), seq![opt.delimiter]) + Seq::<u8>::empty() =~= join_with(
        fast_parts(buf, ends, opt, bofs),
        seq![opt.delimiter],
    ));
}

/// The parts that the bounds print on the general path without joining.
pub open spec fn cut_parts(line: Seq<u8>, opt: Opt, pf: Seq<(int, int)>, nf: Seq<(int, int)>, bofs: Seq<BofView>) -> Seq<
    Seq<u8>,
> {
    Seq::new(bofs.len(), |i: int| spec_bof_out(line, Opt { join: false, ..opt }, pf, nf, bofs[i]).0)
}

proof fn lemma_join_prefix(
    line: Seq<u8>,
    opt: Opt,
    pf: Seq<(int, int)>,
    nf: Seq<(int, int)>,
    bofs: Seq<BofView>,
    k: int,
)
    requires
        opt.join,
        bounds_marked(bofs),
        1 <= k <= bofs.len(),
        spec_emit(line, opt, pf, nf, bofs.subrange(0, k)).1 is None,
    ensures
        spec_emit(line, opt, pf, nf, bofs.subrange(0, k)).0 == join_with(
            cut_parts(line, opt, pf, nf, bofs).subrange(0, k),
            join_delimiter(opt),
        ) + if k < bofs.len() {
            join_delimiter(opt)
        } else {
            Seq::empty()
        },
    decreases k,
{
    reveal(spec_emit);
    let d = join_delimiter(opt);
    let nj = Opt { join: false, ..opt };
    let sub = bofs.subrange(0, k);
    let ps = cut_parts(line, opt, pf, nf, bofs);
    assert(sub.drop_last() =~= bofs.subrange(0, k - 1));
    assert(sub.last() == bofs[k - 1]);
    assert(bofs[k - 1] is Bound);
    let b = bofs[k - 1]->Bound_0;
    let prev = spec_emit(line, opt, pf, nf, bofs.subrange(0, k - 1));
    assert(prev.1 is None);
    let cur = spec_bof_out(line, opt, pf, nf, bofs[k - 1]);
    assert(cur.1 is None);
    assert(cur.0 == spec_bof_out(line, nj, pf, nf, bofs[k - 1]).0 + if !b.is_last {
        d
    } else {
        Seq::empty()
    });
    assert(ps[k - 1] == spec_bof_out(line, nj, pf, nf, bofs[k - 1]).0);
    if k == 1 {
        assert(bofs.subrange(0, 0) =~= Seq::<BofView>::empty());
        assert(ps.subrange(0, 1) =~= seq![ps[0]]);
        assert(prev.0 =~= Seq::<u8>::empty());
        assert(join_with(ps.subrange(0, 1), d) == ps[0]);
        assert(prev.0 + cur.0 =~= cur.0);
    } else {
        lemma_join_prefix(line, opt, pf, nf, bofs, k - 1);
        assert(ps.subrange(0, k) =~= ps.subrange(0, k - 1).push(ps[k - 1]));
        lemma_join_push(ps.subrange(0, k - 1), ps[k - 1], d);
    }
    assert(spec_emit(line, opt, pf, nf, sub) == (prev.0 + cur.0, cur.1));
    if k < bofs.len() {
        assert(!b.is_last);
    } else {
        assert(b.is_last);
    }
}

/// Joining on the general path: a line prints the parts that its bounds
/// print without joining, separated by the join delimiter (the replacement
/// when one is given), so that every bound but the last is followed by it
/// however many fields it spans (`1:2,4` with `-r '-'` on `a b c d` prints
/// `a-b-d`).
pub proof fn law_join_separates_parts(
    line: Seq<u8>,
    opt: Opt,
    pf: Seq<(int, int)>,
    nf: Seq<(int, int)>,
    count: Option<int>,
    eol: Seq<u8>,
)
    requires
        opt.join,
        !(opt.only_delimited && count == Some(1int)),
        spec_line_bounds(opt, count) is Ok,
        bounds_marked(spec_line_bounds(opt, count)->Ok_0),
        spec_line_bounds(opt, count)->Ok_0.len() >= 1,
        spec_cut_line(line, opt, pf, nf, count, eol).1 is None,
    ensures
        ({
            let bs = spec_line_bounds(opt, count)->Ok_0;
            let open = if opt.json {
                seq![91u8]
            } else {
                Seq::<u8>::empty()
            };
            let close = if opt.json {
                seq![93u8]
            } else {
                Seq::<u8>::empty()
            };
            spec_cut_line(line, opt, pf, nf, count, eol).0 == open + join_with(
                cut_parts(line, opt, pf, nf, bs),
                join_delimiter(opt),
            ) + close + eol
        }),
{
    let bs = spec_line_bounds(opt, count)->Ok_0;
    assert(bs.subrange(0, bs.len() as int) =~= bs);
    assert(cut_parts(line, opt, pf, nf, bs).subrange(0, bs.len() as int) =~= cut_parts(line, opt, pf, nf, bs));
    lemma_join_prefix(line, opt, pf, nf, bs, bs.len() as int);
    assert(join_with(cut_parts(line, opt, pf, nf, bs), join_delimiter(opt)) + Seq::<u8>::empty() =~= join_with(
        cut_parts(line, opt, pf, nf, bs),
        join_delimiter(opt),
    ));
}

} // verus!
