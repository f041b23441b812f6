//! Properties that hold across the operations of the library.
use crate::side::{all_digits, digits_value, fits_isize, is_digit, parse_signed, spec_side_from, Side};
use crate::text::{bound_text, decimal, first_index_of, is_first_index, lemma_first_index_unique, side_text};
use crate::userbounds::{
    range_bound, sides_out_of_order, single_field, spec_complement, spec_complement_std_range, spec_sides_from,
    spec_try_into_range, spec_unpack, spec_user_bounds_from, unpack_ok, UserBoundsView,
};
use crate::cut_str::{
    lead_trim, spec_bof_out, spec_extract_with, spec_process, trim_record, spec_compress, spec_compress_from, spec_compressed, spec_cut_line, spec_cut_str_with,
    spec_emit, spec_line_bounds, spec_prepared, spec_trim, spec_trimmed, trail_trim,
};
use crate::finders::{
    greedy_fwd, greedy_rev, lemma_run_end_fwd, lemma_run_end_rev, occurrence_ranges, run_end_fwd, run_end_rev,
    DelimiterFinder, FixedFinder, FixedFinderRev, FixedGreedyFinder, FixedGreedyFinderRev,
};
use crate::plan::{
    fields_fwd, fields_rev, first_oob, in_idx, is_neg_index, is_pos_index, plan_for, spec_fill_fields, ExtractMode, FieldPlan,
};
use crate::search::{find_fwd, find_rev, occurs_at};
use crate::options::{opt_matches_args, spec_bounds_type, spec_eol_byte, Args, BoundsType, Opt, Trim};
use crate::userbounds::BofView;
use crate::userboundslist::{is_last_bound_index, lemma_last_bound_unique, mark_last};
use crate::json::{escape_all, escape_char, hex_digit, hex_escape};
use vstd::prelude::*;

verus! {

/// The digits of `n` are decimal digits that read back as `n`.
proof fn lemma_decimal(n: nat)
    ensures
        decimal(n).len() > 0,
        all_digits(decimal(n)),
        digits_value(decimal(n)) == n,
    decreases n,
{
    if n < 10 {
        let s = decimal(n);
        assert(s.drop_last() =~= Seq::<u8>::empty());
        assert(s.last() == (48 + n) as u8);
        assert(s.last() - 48 == n);
        assert(digits_value(Seq::<u8>::empty()) == 0);
        assert(digits_value(s) == digits_value(s.drop_last()) * 10 + (s.last() - 48));
    } else {
        lemma_decimal(n / 10);
        let p = decimal(n / 10);
        let s = decimal(n);
        assert(s.drop_last() =~= p);
        assert forall|i: int| 0 <= i < s.len() implies is_digit(#[trigger] s[i]) by {
            if i < p.len() {
                assert(s[i] == p[i]);
            }
        }
        assert(n % 10 < 10);
        assert(s.last() == (48 + n % 10) as u8);
        assert(s.last() - 48 == n % 10);
        assert(n == (n / 10) * 10 + n % 10) by (nonlinear_arith);
        assert(digits_value(s) == digits_value(p) * 10 + (s.last() - 48));
    }
}

/// A side fits the text it is written as: its 1-indexed value is a machine
/// integer (one more on the negative side).
pub open spec fn side_fits(s: Side) -> bool {
    s.value < usize::MAX && fits_isize(s.is_negative, (s.value + 1) as nat)
}

/// Neither a colon nor an equal sign nor a plus appears in the text of a side.
proof fn lemma_side_text_bytes(s: Side)
    ensures
        side_text(s).len() > 0,
        forall|i: int| 0 <= i < side_text(s).len() ==> #[trigger] side_text(s)[i] != 58u8 && side_text(s)[i]
            != 61u8,
        side_text(s)[0] != 43u8,
{
    lemma_decimal(s.value as nat + 1);
    let d = decimal(s.value as nat + 1);
    if s.is_negative {
        assert forall|i: int| 0 <= i < side_text(s).len() implies #[trigger] side_text(s)[i] != 58u8
            && side_text(s)[i] != 61u8 by {
            if i > 0 {
                assert(side_text(s)[i] == d[i - 1]);
                assert(is_digit(d[i - 1]));
            }
        }
    } else {
        assert(is_digit(d[0]));
        assert forall|i: int| 0 <= i < side_text(s).len() implies #[trigger] side_text(s)[i] != 58u8
            && side_text(s)[i] != 61u8 by {
            assert(is_digit(d[i]));
        }
    }
}

/// Reading the text of a side gives the side back.
pub proof fn law_side_text_round_trip(s: Side, is_left_bound: bool)
    requires
        side_fits(s),
    ensures
        spec_side_from(side_text(s), is_left_bound) == Ok::<Side, crate::side::ErrorView>(s),
{
    let m = s.value as nat + 1;
    lemma_decimal(m);
    let d = decimal(m);
    assert(is_digit(d[0]));
    if s.is_negative {
        let t = side_text(s);
        assert(t.drop_first() =~= d);
        assert(parse_signed(t) == Some((true, m)));
    } else {
        assert(parse_signed(d) == Some((false, m)));
    }
}

/// No byte `b` in `s`: no first index.
proof fn lemma_no_index(s: Seq<u8>, b: u8)
    requires
        forall|i: int| 0 <= i < s.len() ==> #[trigger] s[i] != b,
    ensures
        first_index_of(s, b) is None,
{
}

/// The first `b` of `s` is at `i`.
proof fn lemma_index_at(s: Seq<u8>, b: u8, i: int)
    requires
        is_first_index(s, b, i),
    ensures
        first_index_of(s, b) == Some(i),
{
    let k = choose|k: int| is_first_index(s, b, k);
    lemma_first_index_unique(s, b, i, k);
}

/// Writing a bound and reading it back gives the bound: a bound whose sides
/// fit their text and are in order reads back with the same sides, not
/// marked last, without fallback. (An open right side is written as `-1`,
/// the last field, so it is left out.)
pub proof fn law_bound_text_round_trip(l: Side, r: Side)
    requires
        side_fits(l),
        side_fits(r),
        !sides_out_of_order(l, r),
    ensures
        spec_user_bounds_from(bound_text(l, r)) == Ok::<UserBoundsView, crate::side::ErrorView>(
            UserBoundsView { l, r, is_last: false, fallback_oob: None },
        ),
{
    lemma_side_text_bytes(l);
    lemma_side_text_bytes(r);
    law_side_text_round_trip(l, true);
    law_side_text_round_trip(r, false);
    let t = bound_text(l, r);
    let tl = side_text(l);
    let tr = side_text(r);
    if l == r {
        lemma_no_index(t, 61u8);
        lemma_no_index(t, 58u8);
        assert(t != seq![58u8]);
    } else {
        assert(t == tl + seq![58u8] + tr);
        assert forall|i: int| 0 <= i < t.len() implies #[trigger] t[i] != 61u8 by {
            if i < tl.len() {
                assert(t[i] == tl[i]);
            } else if i > tl.len() {
                assert(t[i] == tr[i - tl.len() - 1]);
            }
        }
        lemma_no_index(t, 61u8);
        assert(is_first_index(t, 58u8, tl.len() as int)) by {
            assert forall|j: int| 0 <= j < tl.len() implies t[j] != 58u8 by {
                assert(t[j] == tl[j]);
            }
        }
        lemma_index_at(t, 58u8, tl.len() as int);
        assert(t.subrange(0, tl.len() as int) =~= tl);
        assert(t.subrange(tl.len() as int + 1, t.len() as int) =~= tr);
        assert(t != seq![58u8]);
    }
}

/// Part `k` of `n` lies in the range that bound `b` selects.
pub open spec fn selects(b: UserBoundsView, k: int, n: int) -> bool {
    spec_try_into_range(b.l, b.r, n) matches Ok((s, e)) && s <= k < e
}

/// A bound and its complement split the parts: against `n` parts, each
/// bound of the complement resolves, and a part lies in the range of the
/// bound exactly when no bound of the complement selects it.
pub proof fn law_complement_partitions(l: Side, r: Side, n: int)
    requires
        0 < n <= usize::MAX,
        spec_try_into_range(l, r, n) is Ok,
    ensures
        spec_complement(l, r, n) is Ok,
        forall|j: int|
            0 <= j < spec_complement(l, r, n)->Ok_0.len() ==> spec_try_into_range(
                (#[trigger] spec_complement(l, r, n)->Ok_0[j]).l,
                spec_complement(l, r, n)->Ok_0[j].r,
                n,
            ) is Ok,
        forall|k: int|
            0 <= k < n ==> (selects(UserBoundsView { l, r, is_last: false, fallback_oob: None }, k, n) <==> !exists|
                j: int,
            | 0 <= j < spec_complement(l, r, n)->Ok_0.len() && #[trigger] selects(
                spec_complement(l, r, n)->Ok_0[j],
                k,
                n,
            )),
{
    let (s, e) = spec_try_into_range(l, r, n)->Ok_0;
    let rs = spec_complement_std_range(n, s, e);
    let c = spec_complement(l, r, n)->Ok_0;
    assert(c == rs.map_values(|x: (int, int)| range_bound(x)));
    assert forall|j: int| 0 <= j < rs.len() implies spec_try_into_range(c[j].l, c[j].r, n) == Ok::<
        (int, int),
        crate::side::ErrorView,
    >(rs[j]) by {
        assert(c[j] == range_bound(rs[j]));
        assert(0 <= rs[j].0 < rs[j].1 <= n);
    }
    assert forall|k: int| 0 <= k < n implies (selects(
        UserBoundsView { l, r, is_last: false, fallback_oob: None },
        k,
        n,
    ) <==> !exists|j: int| 0 <= j < c.len() && #[trigger] selects(c[j], k, n)) by {
        if s <= k < e {
            assert forall|j: int| 0 <= j < c.len() implies !#[trigger] selects(c[j], k, n) by {
                assert(c[j] == range_bound(rs[j]));
            }
        } else if k < s {
            assert(rs[0] == (0int, s));
            assert(c[0] == range_bound(rs[0]));
            assert(selects(c[0], k, n));
        } else {
            let j = rs.len() - 1;
            assert(rs[j] == (e, n));
            assert(c[j] == range_bound(rs[j]));
            assert(selects(c[j], k, n));
        }
    }
}

/// Unpacking a bound gives one single-field bound per part of the range it
/// selects, in order. A right side counted from the start beyond the parts
/// is left out: the range stops at the last part, the unpacked bounds do
/// not.
pub proof fn law_unpack_follows_range(l: Side, r: Side, n: int)
    requires
        0 < n <= usize::MAX,
        unpack_ok(l, r, n),
        spec_try_into_range(l, r, n) is Ok,
        r.value < n || (!r.is_negative && r.value == usize::MAX),
    ensures
        ({
            let (s, e) = spec_try_into_range(l, r, n)->Ok_0;
            let u = spec_unpack(l, r, n);
            &&& u.len() == e - s
            &&& forall|k: int| 0 <= k < u.len() ==> #[trigger] u[k] == single_field(s + k)
        }),
{
    let (s, e) = spec_try_into_range(l, r, n)->Ok_0;
    assert(crate::userbounds::unpack_start(l, n) == s);
    assert(crate::userbounds::unpack_end(r, n) == e - 1);
}

/// A side counted from the end names the same part as its mirror counted
/// from the start: of `n` parts, `-1` is the last one, `-n` the first.
pub proof fn law_negative_counts_from_end(l: Side, r: Side, n: int)
    requires
        n <= usize::MAX,
        l.is_negative,
        r.is_negative,
        l.value < n,
        r.value < n,
    ensures
        spec_try_into_range(l, r, n) == spec_try_into_range(
            Side { value: (n - 1 - l.value) as usize, is_negative: false },
            Side { value: (n - 1 - r.value) as usize, is_negative: false },
            n,
        ),
{
}

/// Building a list marks its last bound as the last one and changes
/// nothing else: the same entries, fillers and other bounds as they were,
/// the last bound with the same sides and fallback.
pub proof fn law_mark_last(s: Seq<BofView>)
    ensures
        mark_last(s).len() == s.len(),
        forall|i: int| 0 <= i < s.len() && !is_last_bound_index(s, i) ==> #[trigger] mark_last(s)[i] == s[i],
        forall|i: int|
            is_last_bound_index(s, i) ==> #[trigger] mark_last(s)[i] == BofView::Bound(
                UserBoundsView { is_last: true, ..s[i]->Bound_0 },
            ),
{
    if exists|i: int| is_last_bound_index(s, i) {
        let k = choose|i: int| is_last_bound_index(s, i);
        assert forall|i: int| is_last_bound_index(s, i) implies i == k by {
            lemma_last_bound_unique(s, i, k);
        }
    }
}

/// A bound with sides counted from the start covers a part exactly when the
/// range it resolves to holds the part: the test that cutting lines
/// uses agrees with the ranges that fields and bytes use.
pub proof fn law_matches_agrees_with_range(l: Side, r: Side, k: int, n: int)
    requires
        !l.is_negative,
        !r.is_negative,
        0 <= k < n,
    ensures
        (l.value <= k && k <= r.value) <==> selects(UserBoundsView { l, r, is_last: false, fallback_oob: None }, k, n),
{
}

/// `b` starts with `d`.
pub open spec fn starts_with(b: Seq<u8>, d: Seq<u8>) -> bool {
    d.len() <= b.len() && b.subrange(0, d.len() as int) == d
}

/// `b` ends with `d`.
pub open spec fn ends_with(b: Seq<u8>, d: Seq<u8>) -> bool {
    d.len() <= b.len() && b.subrange(b.len() - d.len(), b.len() as int) == d
}

proof fn lemma_lead_trim(b: Seq<u8>, d: Seq<u8>)
    requires
        d.len() > 0,
    ensures
        0 <= lead_trim(b, d) <= b.len(),
        !starts_with(b.subrange(lead_trim(b, d), b.len() as int), d),
    decreases b.len(),
{
    if b.len() >= d.len() && b.subrange(0, d.len() as int) == d {
        let rest = b.subrange(d.len() as int, b.len() as int);
        lemma_lead_trim(rest, d);
        assert(b.subrange(lead_trim(b, d), b.len() as int) =~= rest.subrange(lead_trim(rest, d), rest.len() as int));
    } else {
        assert(b.subrange(0, b.len() as int) =~= b);
    }
}

proof fn lemma_trail_trim(b: Seq<u8>, d: Seq<u8>)
    requires
        d.len() > 0,
    ensures
        0 <= trail_trim(b, d) <= b.len(),
        !ends_with(b.subrange(0, b.len() - trail_trim(b, d)), d),
    decreases b.len(),
{
    if b.len() >= d.len() && b.subrange(b.len() - d.len(), b.len() as int) == d {
        let rest = b.subrange(0, b.len() - d.len());
        lemma_trail_trim(rest, d);
        assert(b.subrange(0, b.len() - trail_trim(b, d)) =~= rest.subrange(0, rest.len() - trail_trim(rest, d)));
    } else {
        assert(b.subrange(0, b.len() as int) =~= b);
    }
}

/// Trimming is greedy: once the delimiter is trimmed from an end, that end
/// no longer holds the delimiter.
pub proof fn law_trim_is_greedy(b: Seq<u8>, kind: Trim, d: Seq<u8>)
    requires
        d.len() > 0,
    ensures
        kind != Trim::Right ==> !starts_with(spec_trim(b, kind, d), d),
        kind != Trim::Left ==> !ends_with(spec_trim(b, kind, d), d),
{
    lemma_lead_trim(b, d);
    lemma_trail_trim(b, d);
    let rest = b.subrange(lead_trim(b, d), b.len() as int);
    lemma_trail_trim(rest, d);
    if kind == Trim::Both {
        let t = spec_trim(b, kind, d);
        if starts_with(t, d) {
            assert(rest.subrange(0, d.len() as int) =~= t.subrange(0, d.len() as int));
        }
    }
}

/// The options that imply joining the parts do join them: a replacement
/// delimiter, JSON, characters, and lines unless joining is refused.
pub proof fn law_join_is_implied(a: Args, o: Opt)
    requires
        opt_matches_args(o, a),
    ensures
        a.replace_delimiter is Some ==> o.join,
        a.json ==> o.join,
        spec_bounds_type(a) == BoundsType::Characters ==> o.join,
        spec_bounds_type(a) == BoundsType::Lines && !a.join_no ==> o.join,
        a.join_yes ==> o.join,
{
}

/// No two bytes `c` follow each other in `s`.
pub open spec fn no_run(s: Seq<u8>, c: u8) -> bool {
    forall|i: int| 0 <= i < s.len() - 1 ==> !(#[trigger] s[i] == c && s[i + 1] == c)
}

/// `c` does not occur in `s`.
pub open spec fn lacks(s: Seq<u8>, c: u8) -> bool {
    forall|i: int| 0 <= i < s.len() ==> #[trigger] s[i] != c
}

/// Joining two texts without runs gives none when the first does not end
/// with `c` or the second does not start with it.
proof fn lemma_no_run_concat(a: Seq<u8>, b: Seq<u8>, c: u8)
    requires
        no_run(a, c),
        no_run(b, c),
        a.len() == 0 || b.len() == 0 || a.last() != c || b[0] != c,
    ensures
        no_run(a + b, c),
{
    let s = a + b;
    assert forall|i: int| 0 <= i < s.len() - 1 implies !(#[trigger] s[i] == c && s[i + 1] == c) by {
        if i < a.len() - 1 {
            assert(s[i] == a[i] && s[i + 1] == a[i + 1]);
        } else if i == a.len() - 1 {
            assert(s[i] == a.last() && s[i + 1] == b[0]);
        } else {
            assert(s[i] == b[i - a.len()] && s[i + 1] == b[i - a.len() + 1]);
        }
    }
}

/// Compressing from `prev` on, the search having reached `q` with no
/// delimiter in between: no run of the delimiter, and no delimiter first
/// when a delimiter was just written.
proof fn lemma_compress_no_run(line: Seq<u8>, c: u8, prev: int, q: int)
    requires
        0 <= prev <= q <= line.len(),
        lacks(line.subrange(prev, q), c),
    ensures
        no_run(spec_compress_from(line, seq![c], find_fwd(line, seq![c], q), prev), c),
        prev >= 1 ==> (spec_compress_from(line, seq![c], find_fwd(line, seq![c], q), prev).len() == 0
            || spec_compress_from(line, seq![c], find_fwd(line, seq![c], q), prev)[0] != c),
    decreases line.len() - q,
{
    let d = seq![c];
    let ps = find_fwd(line, d, q);
    let out = spec_compress_from(line, d, ps, prev);
    reveal(spec_compress_from);
    if q == line.len() {
        assert(ps.len() == 0);
        if prev < line.len() {
        } else {
            assert(out.len() == 0);
        }
        assert(line.subrange(prev, q) =~= out || out.len() == 0);
    } else if occurs_at(line, d, q) {
        assert(line[q] == c) by {
            assert(line.subrange(q, q + 1)[0] == d[0]);
        }
        assert(ps == seq![q] + find_fwd(line, d, q + 1));
        assert(ps.drop_first() =~= find_fwd(line, d, q + 1));
        assert(lacks(line.subrange(q + 1, q + 1), c));
        lemma_compress_no_run(line, c, q + 1, q + 1);
        let rest = spec_compress_from(line, d, find_fwd(line, d, q + 1), q + 1);
        assert(out == (if q == 0 {
            d
        } else if q > prev {
            line.subrange(prev, q) + d
        } else {
            Seq::empty()
        }) + rest);
        if q == 0 {
            lemma_no_run_concat(d, rest, c);
        } else if q > prev {
            let piece = line.subrange(prev, q);
            lemma_no_run_concat(piece, d, c);
            lemma_no_run_concat(piece + d, rest, c);
            assert((piece + d + rest)[0] == piece[0]);
        } else {
            assert(out =~= rest);
        }
    } else {
        assert(line[q] != c) by {
            if line[q] == c {
                assert(line.subrange(q, q + 1) =~= d);
            }
        }
        assert(ps == find_fwd(line, d, q + 1));
        assert forall|i: int| 0 <= i < q + 1 - prev implies #[trigger] line.subrange(prev, q + 1)[i] != c by {
            if i < q - prev {
                assert(line.subrange(prev, q + 1)[i] == line.subrange(prev, q)[i]);
            }
        }
        lemma_compress_no_run(line, c, prev, q + 1);
    }
}

/// Compressing a one-byte delimiter leaves no two delimiters in a row.
pub proof fn law_compress_collapses_runs(line: Seq<u8>, c: u8)
    ensures
        no_run(spec_compress(line, seq![c]), c),
{
    assert(lacks(line.subrange(0, 0), c));
    lemma_compress_no_run(line, c, 0, 0);
}

/// Marking the last bound of a list already marked changes nothing.
pub proof fn law_mark_last_is_idempotent(s: Seq<BofView>)
    ensures
        mark_last(mark_last(s)) == mark_last(s),
{
    let m = mark_last(s);
    law_mark_last(s);
    law_mark_last(m);
    assert forall|j: int| 0 <= j < s.len() implies (#[trigger] m[j] is Bound <==> s[j] is Bound) by {
        if is_last_bound_index(s, j) {
            assert(m[j] is Bound);
        } else {
            assert(m[j] == s[j]);
        }
    }
    assert forall|i: int| 0 <= i < s.len() implies (#[trigger] is_last_bound_index(m, i) <==> is_last_bound_index(s, i)) by {
        if is_last_bound_index(s, i) {
            assert forall|j: int| i < j < m.len() implies !(#[trigger] m[j] is Bound) by {
                assert(!(s[j] is Bound));
            }
        }
        if is_last_bound_index(m, i) {
            assert forall|j: int| i < j < s.len() implies !(#[trigger] s[j] is Bound) by {
                assert(!(m[j] is Bound));
            }
        }
    }
    assert(mark_last(m) =~= m);
}

/// Two sets of options that agree on everything that decides what a
/// prepared line prints.
pub open spec fn same_cut_options(a: Opt, b: Opt) -> bool {
    &&& a.delimiter@ == b.delimiter@
    &&& a.bounds@ == b.bounds@
    &&& a.only_delimited == b.only_delimited
    &&& a.replace_delimiter == b.replace_delimiter
    &&& a.replace_delimiter_fn == b.replace_delimiter_fn
    &&& a.complement == b.complement
    &&& a.join == b.join
    &&& a.json == b.json
    &&& a.fallback_oob == b.fallback_oob
    &&& a.unpack == b.unpack
    &&& a.regex_bag == b.regex_bag
}

proof fn lemma_emit_same_options(
    line: Seq<u8>,
    a: Opt,
    b: Opt,
    pf: Seq<(int, int)>,
    nf: Seq<(int, int)>,
    bofs: Seq<BofView>,
)
    requires
        same_cut_options(a, b),
    ensures
        spec_emit(line, a, pf, nf, bofs) == spec_emit(line, b, pf, nf, bofs),
    decreases bofs.len(),
{
    reveal(spec_emit);
    if bofs.len() > 0 {
        lemma_emit_same_options(line, a, b, pf, nf, bofs.drop_last());
        assert(spec_bof_out(line, a, pf, nf, bofs.last()) == spec_bof_out(line, b, pf, nf, bofs.last()));
    }
}

proof fn lemma_cut_line_same_options(
    line: Seq<u8>,
    a: Opt,
    b: Opt,
    pf: Seq<(int, int)>,
    nf: Seq<(int, int)>,
    count: Option<int>,
    eol: Seq<u8>,
)
    requires
        same_cut_options(a, b),
    ensures
        spec_cut_line(line, a, pf, nf, count, eol) == spec_cut_line(line, b, pf, nf, count, eol),
{
    reveal(spec_line_bounds);
    assert(spec_line_bounds(a, count) == spec_line_bounds(b, count));
    match spec_line_bounds(a, count) {
        Ok(bs) => lemma_emit_same_options(line, a, b, pf, nf, bs),
        Err(_) => {},
    }
}

/// The delimiter is trimmed before anything else: cutting a line with
/// `--trim` prints what cutting the trimmed line without it prints, and
/// leaves the same fields behind.
pub proof fn law_trim_comes_first<F: DelimiterFinder, R: DelimiterFinder>(
    line: Seq<u8>,
    opt: Opt,
    plan: FieldPlan<F, R>,
    pf: Seq<(int, int)>,
    nf: Seq<(int, int)>,
    eol: Seq<u8>,
)
    ensures
        spec_cut_str_with(line, opt, plan, pf, nf, eol) == spec_cut_str_with(
            spec_trimmed(line, opt),
            Opt { trim: None, ..opt },
            plan,
            pf,
            nf,
            eol,
        ),
{
    reveal(spec_cut_str_with);
    let plain = Opt { trim: None, ..opt };
    let l1 = spec_trimmed(line, opt);
    assert(spec_trimmed(l1, plain) == l1);
    assert(spec_compressed(l1, plain) == spec_compressed(l1, opt));
    let l2 = spec_compressed(l1, opt);
    let ex = crate::cut_str::spec_extract_with(plan, pf, nf, l2);
    lemma_cut_line_same_options(l2, opt, plain, ex.0, ex.1, ex.2, eol);
}

/// The line as the arguments ask to trim it, with the delimiter (or the
/// regular expression) of the options.
pub open spec fn args_trimmed(line: Seq<u8>, a: Args, o: Opt) -> Seq<u8> {
    match a.trim {
        None => line,
        Some(k) => match o.regex_bag {
            Some(bag) => crate::cut_str::spec_trim_regex(line, k, crate::pattern::regex_find(bag.greedy@, line)),
            None => spec_trim(line, k, o.delimiter@),
        },
    }
}

/// The options built from the arguments keep the trimming they ask for:
/// cutting a line with them prints what cutting the line trimmed as the
/// arguments say prints without trimming (`--trim both -d ' ' -f 1` on
/// `  foo bar  ` prints `foo`).
pub proof fn law_arguments_trim_the_line<F: DelimiterFinder, R: DelimiterFinder>(
    a: Args,
    o: Opt,
    line: Seq<u8>,
    plan: FieldPlan<F, R>,
    pf: Seq<(int, int)>,
    nf: Seq<(int, int)>,
    eol: Seq<u8>,
)
    requires
        opt_matches_args(o, a),
    ensures
        o.trim == a.trim,
        spec_cut_str_with(line, o, plan, pf, nf, eol) == spec_cut_str_with(
            args_trimmed(line, a, o),
            Opt { trim: None, ..o },
            plan,
            pf,
            nf,
            eol,
        ),
{
    law_trim_comes_first(line, o, plan, pf, nf, eol);
    assert(spec_trimmed(line, o) == args_trimmed(line, a, o));
}

/// Among the first `k` entries of a list without negative sides, the
/// rightmost right side is one of their right sides, and no bound's right
/// side lies beyond it.
proof fn lemma_rightmost_covers(s: Seq<BofView>, k: int)
    requires
        0 <= k <= s.len(),
        !crate::userboundslist::spec_has_negative_indices(s),
    ensures
        match crate::userboundslist::rightmost_upto(s, k) {
            None => forall|j: int| 0 <= j < k ==> !((#[trigger] s[j]) is Bound),
            Some(p) => !p.is_negative && forall|j: int|
                0 <= j < k && (#[trigger] s[j]) is Bound ==> s[j]->Bound_0.r.value <= p.value,
        },
    decreases k,
{
    if k > 0 {
        lemma_rightmost_covers(s, k - 1);
        if s[k - 1] is Bound {
            let b = s[k - 1]->Bound_0;
            assert(!(s[k - 1] matches BofView::Bound(b) && crate::userboundslist::bound_has_negative(b)));
            assert(!b.r.is_negative);
        }
    }
}

/// No bound of a list without negative sides looks beyond the list's last
/// interesting field: its right side is at or before it, and a bound open
/// to the right makes it open to the right; so cutting up to that field
/// never drops a field that a bound of the list asks for (`1,3:` keeps
/// every field from the third on).
pub proof fn law_no_bound_looks_past_the_last_interesting_field(
    raw: Seq<BofView>,
    l: crate::userboundslist::UserBoundsList,
)
    requires
        l@ == mark_last(raw),
        l.last_interesting_field == crate::userboundslist::spec_last_interesting_field(raw),
        !crate::userboundslist::spec_has_negative_indices(raw),
    ensures
        !l.last_interesting_field.is_negative,
        forall|j: int|
            0 <= j < l@.len() && (#[trigger] l@[j]) is Bound ==> l@[j]->Bound_0.r.value
                <= l.last_interesting_field.value,
{
    lemma_rightmost_covers(raw, raw.len() as int);
    law_mark_last(raw);
    assert forall|j: int| 0 <= j < l@.len() && (#[trigger] l@[j]) is Bound implies l@[j]->Bound_0.r.value
        <= l.last_interesting_field.value by {
        if is_last_bound_index(raw, j) {
            assert(l@[j]->Bound_0.r == raw[j]->Bound_0.r);
        } else {
            assert(l@[j] == raw[j]);
        }
        assert(raw[j] is Bound);
    }
}

/// Cutting lines with `--compress-delimiter` is not streamed line by line:
/// it cuts the whole input (see `read_and_cut_lines`), and there prints
/// what cutting, without the option, the input whose runs of line
/// terminators are compressed to one prints (`-l 2 -p` on `a\n\nb\nc`
/// prints `b`).
pub proof fn law_compressed_lines_cut_the_compressed_input<F: DelimiterFinder, R: DelimiterFinder>(
    input: Seq<u8>,
    opt: Opt,
    plan: FieldPlan<F, R>,
)
    requires
        opt.compress_delimiter,
        opt.bounds_type == BoundsType::Lines,
        opt.trim is None,
        input.len() > 0,
        spec_compressed(input, opt).len() > 0,
    ensures
        !crate::cut_lines::can_be_streamed(opt),
        crate::cut_str::spec_run(plan, input, opt, true) == crate::cut_str::spec_run(
            plan,
            spec_compressed(input, opt),
            Opt { compress_delimiter: false, ..opt },
            true,
        ),
{
    law_compress_comes_before_fields(
        input,
        opt,
        plan,
        crate::finders::ranges_view(plan.positive_fields@),
        crate::finders::ranges_view(plan.negative_fields@),
        Seq::empty(),
    );
}

/// Delimiters are compressed before the fields are cut: on an untrimmed line
/// that compressing leaves non-empty, cutting with `--compress-delimiter`
/// prints what cutting the compressed line without it prints.
pub proof fn law_compress_comes_before_fields<F: DelimiterFinder, R: DelimiterFinder>(
    line: Seq<u8>,
    opt: Opt,
    plan: FieldPlan<F, R>,
    pf: Seq<(int, int)>,
    nf: Seq<(int, int)>,
    eol: Seq<u8>,
)
    requires
        opt.trim is None,
        line.len() > 0,
        spec_compressed(line, opt).len() > 0,
    ensures
        spec_cut_str_with(line, opt, plan, pf, nf, eol) == spec_cut_str_with(
            spec_compressed(line, opt),
            Opt { compress_delimiter: false, ..opt },
            plan,
            pf,
            nf,
            eol,
        ),
{
    reveal(spec_cut_str_with);
    let plain = Opt { compress_delimiter: false, ..opt };
    let l2 = spec_compressed(line, opt);
    assert(spec_trimmed(line, opt) == line);
    assert(spec_trimmed(l2, plain) == l2);
    assert(spec_compressed(l2, plain) == l2);
    let ex = crate::cut_str::spec_extract_with(plan, pf, nf, l2);
    lemma_cut_line_same_options(l2, opt, plain, ex.0, ex.1, ex.2, eol);
}

/// With `--only-delimited`, a line prints nothing when the finder finds no
/// delimiter in it (once trimmed and compressed), and when trimming leaves
/// nothing of it.
pub proof fn law_only_delimited_skips_lines_without_delimiter<F: DelimiterFinder, R: DelimiterFinder>(
    line: Seq<u8>,
    opt: Opt,
    plan: FieldPlan<F, R>,
    pf: Seq<(int, int)>,
    nf: Seq<(int, int)>,
    eol: Seq<u8>,
)
    requires
        opt.only_delimited,
        plan_for(plan, opt),
    ensures
        spec_trimmed(line, opt).len() == 0 || (spec_prepared(line, opt).len() > 0
            && plan.finder.spec_ranges(spec_prepared(line, opt)).len() == 0) ==> {
            let o = spec_cut_str_with(line, opt, plan, pf, nf, eol);
            o.0 == Seq::<u8>::empty() && o.1 is None
        },
{
    reveal(spec_cut_str_with);
    assert(plan.extract_func == ExtractMode::EveryField);
}

/// The bound `1:`: from the first field to the end of the line.
pub open spec fn whole_line_bound(b: UserBoundsView) -> bool {
    &&& b.l == Side { value: 0, is_negative: false }
    &&& b.r == Side { value: usize::MAX, is_negative: false }
    &&& b.is_last
}

/// Options that only select fields: no trimming, compressing, complement,
/// unpacking, replacing, JSON output or skipping of lines.
pub open spec fn plain_cut(opt: Opt) -> bool {
    &&& opt.trim is None
    &&& !opt.compress_delimiter
    &&& !opt.only_delimited
    &&& !opt.complement
    &&& !opt.json
    &&& !opt.unpack
    &&& opt.replace_delimiter is None
    &&& opt.replace_delimiter_fn is None
}

proof fn lemma_single_index_zero(idx: Seq<usize>, n: int)
    requires
        forall|i: int, j: int| 0 <= i < j < idx.len() ==> idx[i] < idx[j],
        forall|v: int| in_idx(idx, v) <==> v == 0,
        n > 0,
    ensures
        idx == seq![0usize],
        first_oob(idx, n, 0) is None,
{
    assert(in_idx(idx, 0));
    let k = choose|k: int| 0 <= k < idx.len() && idx[k] == 0;
    if idx.len() > 1 {
        let other = if k == 0 { 1int } else { 0int };
        assert(in_idx(idx, idx[other] as int));
        assert(idx[other] == 0);
        assert(false);
    }
    assert(idx =~= seq![0usize]);
    assert(first_oob(idx, n, 1) is None);
}

/// With the bound `1:` alone and options that only select fields, a line
/// prints unchanged, then the terminator; the stored fields keep their
/// number.
pub proof fn law_whole_line_bound_prints_line<F: DelimiterFinder, R: DelimiterFinder>(
    line: Seq<u8>,
    opt: Opt,
    plan: FieldPlan<F, R>,
    b: UserBoundsView,
    pf: Seq<(int, int)>,
    nf: Seq<(int, int)>,
    eol: Seq<u8>,
)
    requires
        plain_cut(opt),
        opt.bounds@ == seq![BofView::Bound(b)],
        whole_line_bound(b),
        plan_for(plan, opt),
        pf.len() > 0,
    ensures
        ({
            let o = spec_cut_str_with(line, opt, plan, pf, nf, eol);
            &&& o.0 == line + eol
            &&& o.1 is None
            &&& o.2.len() == pf.len()
        }),
{
    reveal(spec_cut_str_with);
    reveal(spec_line_bounds);
    reveal_with_fuel(spec_emit, 2);
    assert(spec_trimmed(line, opt) == line);
    if line.len() == 0 {
        assert(line + eol =~= eol);
    } else {
        assert(spec_compressed(line, opt) == line);
        let bs = opt.bounds@;
        assert forall|v: int| is_pos_index(bs, v) <==> v == 0 by {
            if v == 0 {
                assert(bs[0] matches BofView::Bound(x) && crate::plan::bound_pos_side(x, v));
            }
        }
        assert forall|v: int| !is_neg_index(bs, v) by {}
        let idx = plan.positive_indices@;
        assert(forall|v: int| in_idx(idx, v) <==> v == 0);
        assert(in_idx(idx, 0));
        assert(plan.negative_indices@.len() == 0) by {
            if plan.negative_indices@.len() > 0 {
                assert(in_idx(plan.negative_indices@, plan.negative_indices@[0] as int));
            }
        }
        assert(plan.extract_func == ExtractMode::PosIndices);
        let fs = plan.fwd_fields(line);
        lemma_single_index_zero(idx, fs.len() as int);
        let ex = spec_extract_with(plan, pf, nf, line);
        assert(ex.0 == spec_fill_fields(pf, idx, fs));
        assert(ex.0[0] == fs[0]);
        assert(fs[0].0 == 0);
        assert(line.subrange(0, line.len() as int) =~= line);
        assert(spec_emit(line, opt, ex.0, ex.1, bs) == (line, None::<crate::side::ErrorView>)) by {
            assert(bs.drop_last() =~= Seq::<BofView>::empty());
            assert(line + Seq::<u8>::empty() =~= line);
            assert(Seq::<u8>::empty() + line =~= line);
        }
        assert(Seq::<u8>::empty() + line + Seq::<u8>::empty() + eol =~= line + eol);
    }
}

/// The lines as they were, each without its terminator and then with it.
pub open spec fn lines_as_they_were(lines: Seq<Seq<u8>>, opt: Opt) -> Seq<u8>
    decreases lines.len(),
{
    if lines.len() == 0 {
        Seq::empty()
    } else {
        trim_record(lines[0], opt.eol) + seq![spec_eol_byte(opt.eol)] + lines_as_they_were(lines.drop_first(), opt)
    }
}

/// With the bound `1:` alone (the default) and options that only select
/// fields, every line is printed as it was and nothing fails.
pub proof fn law_whole_line_bound_keeps_input<F: DelimiterFinder, R: DelimiterFinder>(
    lines: Seq<Seq<u8>>,
    opt: Opt,
    plan: FieldPlan<F, R>,
    b: UserBoundsView,
    pf: Seq<(int, int)>,
    nf: Seq<(int, int)>,
)
    requires
        plain_cut(opt),
        opt.bounds@ == seq![BofView::Bound(b)],
        whole_line_bound(b),
        plan_for(plan, opt),
        pf.len() > 0,
    ensures
        spec_process(lines, opt, plan, pf, nf) == (lines_as_they_were(lines, opt), None::<crate::side::ErrorView>),
    decreases lines.len(),
{
    reveal(spec_process);
    if lines.len() > 0 {
        let eol = seq![spec_eol_byte(opt.eol)];
        let line = trim_record(lines[0], opt.eol);
        law_whole_line_bound_prints_line(line, opt, plan, b, pf, nf, eol);
        let o = spec_cut_str_with(line, opt, plan, pf, nf, eol);
        law_whole_line_bound_keeps_input(lines.drop_first(), opt, plan, b, o.2, o.3);
    }
}

/// No two occurrences of `d` in `h` overlap.
pub open spec fn occurrences_disjoint(h: Seq<u8>, d: Seq<u8>) -> bool {
    forall|i: int, j: int|
        #![trigger occurs_at(h, d, i), occurs_at(h, d, j)]
        occurs_at(h, d, i) && occurs_at(h, d, j) && i < j ==> i + d.len() <= j
}

/// The positions in `[lo, hi)` where `d` occurs in `h`, left to right.
pub open spec fn occurrence_positions(h: Seq<u8>, d: Seq<u8>, lo: int, hi: int) -> Seq<int>
    decreases hi - lo,
{
    if lo >= hi {
        Seq::empty()
    } else if occurs_at(h, d, lo) {
        seq![lo] + occurrence_positions(h, d, lo + 1, hi)
    } else {
        occurrence_positions(h, d, lo + 1, hi)
    }
}

proof fn lemma_positions_skip(h: Seq<u8>, d: Seq<u8>, a: int, b: int, hi: int)
    requires
        a <= b <= hi,
        forall|i: int| a <= i < b ==> !occurs_at(h, d, i),
    ensures
        occurrence_positions(h, d, a, hi) == occurrence_positions(h, d, b, hi),
    decreases b - a,
{
    if a < b {
        lemma_positions_skip(h, d, a + 1, b, hi);
    }
}

proof fn lemma_positions_last(h: Seq<u8>, d: Seq<u8>, lo: int, hi: int)
    requires
        lo < hi,
    ensures
        occurrence_positions(h, d, lo, hi) == occurrence_positions(h, d, lo, hi - 1) + if occurs_at(
            h,
            d,
            hi - 1,
        ) {
            seq![hi - 1]
        } else {
            Seq::<int>::empty()
        },
    decreases hi - lo,
{
    let tail = if occurs_at(h, d, hi - 1) {
        seq![hi - 1]
    } else {
        Seq::<int>::empty()
    };
    if lo < hi - 1 {
        lemma_positions_last(h, d, lo + 1, hi);
        if occurs_at(h, d, lo) {
            assert(seq![lo] + (occurrence_positions(h, d, lo + 1, hi - 1) + tail) =~= seq![lo]
                + occurrence_positions(h, d, lo + 1, hi - 1) + tail);
        }
    } else {
        assert(occurrence_positions(h, d, lo + 1, hi) =~= Seq::<int>::empty());
        assert(occurrence_positions(h, d, lo, hi - 1) =~= Seq::<int>::empty());
        assert(Seq::<int>::empty() + tail =~= tail);
        assert(tail + Seq::<int>::empty() =~= tail);
    }
}

proof fn lemma_find_fwd_all(h: Seq<u8>, d: Seq<u8>, pos: int)
    requires
        0 <= pos <= h.len() + 1,
        occurrences_disjoint(h, d),
    ensures
        find_fwd(h, d, pos) == occurrence_positions(h, d, pos, h.len() + 1int),
    decreases h.len() + 1 - pos,
{
    let hi = h.len() + 1int;
    if pos + d.len() > h.len() {
        assert forall|i: int| pos <= i < hi implies !occurs_at(h, d, i) by {}
        lemma_positions_skip(h, d, pos, hi, hi);
    } else if occurs_at(h, d, pos) {
        let next = pos + crate::search::step(d);
        assert forall|i: int| pos + 1 <= i < next implies !occurs_at(h, d, i) by {
            if occurs_at(h, d, i) {
                assert(occurs_at(h, d, pos) && occurs_at(h, d, i));
            }
        }
        lemma_positions_skip(h, d, pos + 1, next, hi);
        lemma_find_fwd_all(h, d, next);
    } else {
        lemma_find_fwd_all(h, d, pos + 1);
    }
}

proof fn lemma_find_rev_all(h: Seq<u8>, d: Seq<u8>, end: int)
    requires
        0 <= end <= h.len(),
        occurrences_disjoint(h, d),
    ensures
        find_rev(h, d, end) == occurrence_positions(h, d, 0, end - d.len() + 1).reverse(),
    decreases end,
{
    let hi = end - d.len() + 1;
    if end < d.len() {
        assert(occurrence_positions(h, d, 0, hi).reverse() =~= Seq::<int>::empty());
    } else if occurs_at(h, d, end - d.len()) {
        let p = end - d.len();
        lemma_positions_last(h, d, 0, hi);
        if d.len() == 0 {
            if end == 0 {
                assert(occurrence_positions(h, d, 0, 0) =~= Seq::<int>::empty());
                assert((Seq::<int>::empty() + seq![p]).reverse() =~= seq![end]);
            } else {
                lemma_find_rev_all(h, d, end - 1);
                let before = occurrence_positions(h, d, 0, hi - 1);
                assert((before + seq![p]).reverse() =~= seq![end] + before.reverse());
            }
        } else {
            lemma_find_rev_all(h, d, p);
            let lo2 = p - d.len() + 1;
            assert forall|i: int| lo2 <= i < p implies !occurs_at(h, d, i) by {
                if occurs_at(h, d, i) {
                    assert(occurs_at(h, d, i) && occurs_at(h, d, p));
                }
            }
            let before = occurrence_positions(h, d, 0, p);
            if lo2 > 0 {
                assert(occurrence_positions(h, d, 0, p) == occurrence_positions(h, d, 0, lo2)) by {
                    lemma_positions_split(h, d, 0, lo2, p);
                }
            } else {
                assert(occurrence_positions(h, d, 0, p) == occurrence_positions(h, d, 0, lo2)) by {
                    lemma_positions_skip(h, d, 0, p, p);
                    assert(occurrence_positions(h, d, p, p) =~= Seq::<int>::empty());
                    assert(occurrence_positions(h, d, 0, lo2) =~= Seq::<int>::empty());
                }
            }
            assert((before + seq![p]).reverse() =~= seq![p] + before.reverse());
        }
    } else if end == 0 {
        assert(occurrence_positions(h, d, 0, hi).reverse() =~= Seq::<int>::empty()) by {
            if hi > 0 {
                lemma_positions_last(h, d, 0, hi);
                assert(occurrence_positions(h, d, 0, hi - 1) =~= Seq::<int>::empty());
            }
        }
    } else {
        lemma_find_rev_all(h, d, end - 1);
        if hi > 0 {
            lemma_positions_last(h, d, 0, hi);
            assert(occurrence_positions(h, d, 0, hi - 1) + Seq::<int>::empty() =~= occurrence_positions(
                h,
                d,
                0,
                hi - 1,
            ));
        } else {
            assert(occurrence_positions(h, d, 0, hi) =~= Seq::<int>::empty());
            assert(occurrence_positions(h, d, 0, hi - 1) =~= Seq::<int>::empty());
        }
    }
}

/// Dropping the end `[mid, hi)` of a range that holds no occurrence.
proof fn lemma_positions_split(h: Seq<u8>, d: Seq<u8>, lo: int, mid: int, hi: int)
    requires
        lo <= mid <= hi,
        forall|i: int| mid <= i < hi ==> !occurs_at(h, d, i),
    ensures
        occurrence_positions(h, d, lo, hi) == occurrence_positions(h, d, lo, mid),
    decreases hi - mid,
{
    if mid < hi {
        lemma_positions_last(h, d, lo, hi);
        lemma_positions_split(h, d, lo, mid, hi - 1);
        assert(occurrence_positions(h, d, lo, hi - 1) + Seq::<int>::empty() =~= occurrence_positions(
            h,
            d,
            lo,
            hi - 1,
        ));
    }
}

/// The fields found from the end are the fields found from the start, in
/// the other order, when no two occurrences of the delimiter in the line
/// overlap: of `n` fields, the `k`-th from the end is the `n - 1 - k`-th
/// from the start, so `-1` is the last field.
pub proof fn law_fields_from_the_end_mirror_fields_from_the_start(
    line: Seq<u8>,
    fwd: FixedFinder,
    rev: FixedFinderRev,
)
    requires
        rev.pattern@ == fwd.pattern@,
        occurrences_disjoint(line, fwd.pattern@),
    ensures
        ({
            let f = fields_fwd(fwd.spec_ranges(line), line.len() as int);
            let r = fields_rev(rev.spec_ranges(line), line.len() as int);
            &&& r.len() == f.len()
            &&& forall|k: int| 0 <= k < r.len() ==> #[trigger] r[k] == f[f.len() - 1 - k]
        }),
{
    let len = line.len() as int;
    let d = fwd.pattern@;
    let dl = d.len() as int;
    lemma_find_fwd_all(line, d, 0);
    lemma_find_rev_all(line, d, len);
    let hi = len - dl + 1;
    assert(occurrence_positions(line, d, 0, len + 1) == occurrence_positions(line, d, 0, hi)) by {
        if hi < 0 {
            lemma_positions_skip(line, d, 0, len + 1, len + 1);
            assert(occurrence_positions(line, d, len + 1, len + 1) =~= Seq::<int>::empty());
            assert(occurrence_positions(line, d, 0, hi) =~= Seq::<int>::empty());
        } else {
            lemma_positions_split(line, d, 0, hi, len + 1);
        }
    }
    let p = occurrence_positions(line, d, 0, hi);
    let rs = fwd.spec_ranges(line);
    let rr = rev.spec_ranges(line);
    assert(rs == occurrence_ranges(p, dl));
    assert(rr == occurrence_ranges(p.reverse(), dl));
    let f = fields_fwd(rs, len);
    let r = fields_rev(rr, len);
    let m = p.len() as int;
    assert forall|k: int| 0 <= k < r.len() implies #[trigger] r[k] == f[f.len() - 1 - k] by {
        if k < m {
            assert(rr[k] == (p[m - 1 - k], p[m - 1 - k] + dl));
        }
        if k > 0 {
            assert(rr[k - 1] == (p[m - k], p[m - k] + dl));
        }
        if m - k < m {
            assert(rs[m - k] == (p[m - k], p[m - k] + dl));
        }
        if m - k > 0 {
            assert(rs[m - k - 1] == (p[m - k - 1], p[m - k - 1] + dl));
        }
    }
}

/// Where the run of back-to-back positions (each `d` after the previous one)
/// that ends at index `k` starts.
pub open spec fn run_start(ps: Seq<int>, d: int, k: int) -> int
    decreases k,
{
    if k > 0 && ps[k] == ps[k - 1] + d {
        run_start(ps, d, k - 1)
    } else {
        k
    }
}

proof fn lemma_run_start(ps: Seq<int>, d: int, k: int)
    requires
        0 <= k < ps.len(),
    ensures
        0 <= run_start(ps, d, k) <= k,
        run_start(ps, d, k) == 0 || ps[run_start(ps, d, k)] != ps[run_start(ps, d, k) - 1] + d,
        forall|j: int| run_start(ps, d, k) < j <= k ==> #[trigger] ps[j] == ps[j - 1] + d,
    decreases k,
{
    if k > 0 && ps[k] == ps[k - 1] + d {
        lemma_run_start(ps, d, k - 1);
    }
}

proof fn lemma_run_end_fwd_before_break(ps: Seq<int>, d: int, s: int, k: int)
    requires
        0 <= k < s <= ps.len(),
        s == ps.len() || ps[s] != ps[s - 1] + d,
    ensures
        run_end_fwd(ps, d, k) == run_end_fwd(ps.take(s), d, k),
        run_end_fwd(ps, d, k) < s,
    decreases s - k,
{
    if k + 1 < s && ps[k + 1] == ps[k] + d {
        lemma_run_end_fwd_before_break(ps, d, s, k + 1);
    }
}

proof fn lemma_greedy_fwd_before_break(ps: Seq<int>, d: int, s: int, k: int)
    requires
        0 <= k <= s <= ps.len(),
        s == 0 || s == ps.len() || ps[s] != ps[s - 1] + d,
    ensures
        greedy_fwd(ps, d, k) == greedy_fwd(ps.take(s), d, k) + greedy_fwd(ps, d, s),
    decreases s - k,
{
    if k == s {
        assert(greedy_fwd(ps.take(s), d, k) =~= Seq::<(int, int)>::empty());
        assert(Seq::<(int, int)>::empty() + greedy_fwd(ps, d, s) =~= greedy_fwd(ps, d, s));
    } else {
        lemma_run_end_fwd_before_break(ps, d, s, k);
        lemma_run_end_fwd(ps, d, k);
        let e = run_end_fwd(ps, d, k);
        lemma_greedy_fwd_before_break(ps, d, s, e + 1);
        let head = seq![(ps[k], ps[e] + d)];
        assert(head + (greedy_fwd(ps.take(s), d, e + 1) + greedy_fwd(ps, d, s)) =~= head + greedy_fwd(
            ps.take(s),
            d,
            e + 1,
        ) + greedy_fwd(ps, d, s));
    }
}

proof fn lemma_greedy_fwd_last_run(ps: Seq<int>, d: int, k: int)
    requires
        0 <= k < ps.len(),
        forall|j: int| k < j < ps.len() ==> #[trigger] ps[j] == ps[j - 1] + d,
    ensures
        run_end_fwd(ps, d, k) == ps.len() - 1,
        greedy_fwd(ps, d, k) == seq![(ps[k], ps[ps.len() - 1] + d)],
    decreases ps.len() - k,
{
    if k + 1 < ps.len() {
        assert(ps[k + 1] == ps[k] + d);
        lemma_greedy_fwd_last_run(ps, d, k + 1);
    }
    assert(greedy_fwd(ps, d, ps.len() as int) =~= Seq::<(int, int)>::empty());
    assert(seq![(ps[k], ps[ps.len() - 1] + d)] + Seq::<(int, int)>::empty() =~= seq![
        (ps[k], ps[ps.len() - 1] + d),
    ]);
}

proof fn lemma_greedy_rev_suffix(x: Seq<int>, y: Seq<int>, d: int, j: int)
    requires
        0 <= j,
    ensures
        run_end_rev(x + y, d, x.len() + j) == x.len() + run_end_rev(y, d, j),
        greedy_rev(x + y, d, x.len() + j) == greedy_rev(y, d, j),
    decreases y.len() - j,
{
    let s = x + y;
    let k = x.len() + j;
    if j < y.len() {
        assert(s[k] == y[j]);
        if j + 1 < y.len() {
            assert(s[k + 1] == y[j + 1]);
        }
        lemma_greedy_rev_suffix(x, y, d, j + 1);
        lemma_run_end_rev(y, d, j);
        lemma_run_end_rev(s, d, k);
        let e = run_end_rev(y, d, j);
        lemma_greedy_rev_suffix(x, y, d, e + 1);
        assert(s[x.len() + e] == y[e]);
    }
}

proof fn lemma_run_end_rev_last_run(ps: Seq<int>, d: int, s: int, k: int)
    requires
        0 <= s < ps.len(),
        0 <= k <= ps.len() - 1 - s,
        s == 0 || ps[s] != ps[s - 1] + d,
        forall|j: int| s < j < ps.len() ==> #[trigger] ps[j] == ps[j - 1] + d,
        forall|j: int| 0 <= j < ps.len() ==> #[trigger] ps[j] >= 0,
    ensures
        run_end_rev(ps.reverse(), d, k) == ps.len() - 1 - s,
    decreases ps.len() - 1 - s - k,
{
    let r = ps.reverse();
    let m = ps.len() as int;
    if k < m - 1 - s {
        assert(r[k] == ps[m - 1 - k]);
        assert(r[k + 1] == ps[m - 2 - k]);
        assert(ps[m - 1 - k] == ps[m - 2 - k] + d);
        lemma_run_end_rev_last_run(ps, d, s, k + 1);
    } else if k + 1 < m {
        assert(r[k] == ps[s]);
        assert(r[k + 1] == ps[s - 1]);
    }
}

/// The runs found right to left over the reversed positions are the runs
/// found left to right, in the other order.
proof fn lemma_greedy_rev_mirrors_fwd(ps: Seq<int>, d: int)
    requires
        forall|j: int| 0 <= j < ps.len() ==> #[trigger] ps[j] >= 0,
    ensures
        greedy_rev(ps.reverse(), d, 0) == greedy_fwd(ps, d, 0).reverse(),
    decreases ps.len(),
{
    let m = ps.len() as int;
    if m == 0 {
        assert(greedy_fwd(ps, d, 0).reverse() =~= Seq::<(int, int)>::empty());
    } else {
        lemma_run_start(ps, d, m - 1);
        let s = run_start(ps, d, m - 1);
        let a = ps.take(s);
        let run = (ps[s], ps[m - 1] + d);
        assert(greedy_fwd(ps, d, 0) == greedy_fwd(a, d, 0) + seq![run]) by {
            lemma_greedy_fwd_before_break(ps, d, s, 0);
            lemma_greedy_fwd_last_run(ps, d, s);
        }
        let r = ps.reverse();
        assert(greedy_rev(r, d, 0) == seq![run] + greedy_rev(a.reverse(), d, 0)) by {
            lemma_run_end_rev_last_run(ps, d, s, 0);
            assert(r =~= ps.skip(s).reverse() + a.reverse());
            lemma_greedy_rev_suffix(ps.skip(s).reverse(), a.reverse(), d, 0);
            assert(r[m - 1 - s] == ps[s]);
            assert(r[0] == ps[m - 1]);
            assert(ps.skip(s).reverse().len() == m - s);
        }
        assert forall|j: int| 0 <= j < a.len() implies #[trigger] a[j] >= 0 by {
            assert(a[j] == ps[j]);
        }
        lemma_greedy_rev_mirrors_fwd(a, d);
        assert((greedy_fwd(a, d, 0) + seq![run]).reverse() =~= seq![run] + greedy_fwd(a, d, 0).reverse());
    }
}

/// The same for greedy delimiters: the fields found from the end, each run
/// of back-to-back delimiters counting as one, are the fields found from
/// the start, in the other order, when no two occurrences of the delimiter
/// in the line overlap.
pub proof fn law_greedy_fields_from_the_end_mirror_fields_from_the_start(
    line: Seq<u8>,
    fwd: FixedGreedyFinder,
    rev: FixedGreedyFinderRev,
)
    requires
        rev.pattern@ == fwd.pattern@,
        occurrences_disjoint(line, fwd.pattern@),
    ensures
        ({
            let f = fields_fwd(fwd.spec_ranges(line), line.len() as int);
            let r = fields_rev(rev.spec_ranges(line), line.len() as int);
            &&& r.len() == f.len()
            &&& forall|k: int| 0 <= k < r.len() ==> #[trigger] r[k] == f[f.len() - 1 - k]
        }),
{
    let len = line.len() as int;
    let d = fwd.pattern@;
    let dl = d.len() as int;
    lemma_find_fwd_all(line, d, 0);
    lemma_find_rev_all(line, d, len);
    let hi = len - dl + 1;
    assert(occurrence_positions(line, d, 0, len + 1) == occurrence_positions(line, d, 0, hi)) by {
        if hi < 0 {
            lemma_positions_skip(line, d, 0, len + 1, len + 1);
            assert(occurrence_positions(line, d, len + 1, len + 1) =~= Seq::<int>::empty());
            assert(occurrence_positions(line, d, 0, hi) =~= Seq::<int>::empty());
        } else {
            lemma_positions_split(line, d, 0, hi, len + 1);
        }
    }
    let p = occurrence_positions(line, d, 0, hi);
    crate::search::lemma_find_fwd_wf(line, d, 0);
    assert forall|j: int| 0 <= j < p.len() implies #[trigger] p[j] >= 0 by {
        assert(occurs_at(line, d, p[j]));
    }
    lemma_greedy_rev_mirrors_fwd(p, dl);
    let rs = fwd.spec_ranges(line);
    let rr = rev.spec_ranges(line);
    assert(rs == greedy_fwd(p, dl, 0));
    assert(rr == rs.reverse());
    let f = fields_fwd(rs, len);
    let r = fields_rev(rr, len);
    let m = rs.len() as int;
    assert forall|k: int| 0 <= k < r.len() implies #[trigger] r[k] == f[f.len() - 1 - k] by {
        if k < m {
            assert(rr[k] == rs[m - 1 - k]);
        }
        if k > 0 {
            assert(rr[k - 1] == rs[m - k]);
        }
    }
}

/// Occurrences read the same in `y` and in `x + y` shifted by `x`.
proof fn lemma_occurs_shift(x: Seq<u8>, y: Seq<u8>, d: Seq<u8>, i: int)
    requires
        0 <= i,
    ensures
        occurs_at(x + y, d, x.len() + i) == occurs_at(y, d, i),
{
    let h = x + y;
    let k = x.len() + i;
    if occurs_at(y, d, i) {
        assert(h.subrange(k, k + d.len()) =~= y.subrange(i, i + d.len()));
    }
    if occurs_at(h, d, k) {
        assert(h.subrange(k, k + d.len()) =~= y.subrange(i, i + d.len()));
    }
}

/// Occurrences read the same in `x` and in `x + y` while they end in `x`.
proof fn lemma_occurs_prefix(x: Seq<u8>, y: Seq<u8>, d: Seq<u8>, i: int)
    requires
        0 <= i,
        i + d.len() <= x.len(),
    ensures
        occurs_at(x + y, d, i) == occurs_at(x, d, i),
{
    assert((x + y).subrange(i, i + d.len()) =~= x.subrange(i, i + d.len()));
}

/// The search from `pos` finds first the first occurrence at or after
/// `pos`, then goes on one step after it; it finds nothing when nothing
/// occurs from `pos` on.
proof fn lemma_find_fwd_first(h: Seq<u8>, d: Seq<u8>, pos: int)
    requires
        0 <= pos,
    ensures
        find_fwd(h, d, pos).len() == 0 ==> forall|i: int| pos <= i ==> !occurs_at(h, d, i),
        find_fwd(h, d, pos).len() > 0 ==> {
            let q = find_fwd(h, d, pos)[0];
            &&& pos <= q
            &&& occurs_at(h, d, q)
            &&& forall|i: int| pos <= i < q ==> !occurs_at(h, d, i)
            &&& find_fwd(h, d, pos) == seq![q] + find_fwd(h, d, q + crate::search::step(d))
        },
    decreases h.len() + 1 - pos,
{
    if pos + d.len() > h.len() {
    } else if occurs_at(h, d, pos) {
    } else {
        lemma_find_fwd_first(h, d, pos + 1);
    }
}

/// Searching from `pos` or from `q` is the same when nothing occurs in
/// between.
proof fn lemma_find_fwd_skip(h: Seq<u8>, d: Seq<u8>, pos: int, q: int)
    requires
        0 <= pos <= q,
        forall|i: int| pos <= i < q ==> !occurs_at(h, d, i),
    ensures
        find_fwd(h, d, pos) == find_fwd(h, d, q),
    decreases q - pos,
{
    if pos < q {
        lemma_find_fwd_skip(h, d, pos + 1, q);
        if pos + d.len() > h.len() {
            assert(find_fwd(h, d, q) =~= Seq::<int>::empty());
        }
    }
}

/// The search past `x` in `x + y` finds what the search in `y` finds, moved
/// by `x.len()`.
proof fn lemma_find_fwd_shift(x: Seq<u8>, y: Seq<u8>, d: Seq<u8>, i: int)
    requires
        0 <= i,
    ensures
        find_fwd(x + y, d, x.len() + i) == find_fwd(y, d, i).map_values(|p: int| p + x.len()),
    decreases y.len() + 1 - i,
{
    let h = x + y;
    let k = x.len() + i;
    if i + d.len() > y.len() {
        assert(find_fwd(y, d, i).map_values(|p: int| p + x.len()) =~= Seq::<int>::empty());
    } else {
        lemma_occurs_shift(x, y, d, i);
        if occurs_at(y, d, i) {
            let st = crate::search::step(d);
            lemma_find_fwd_shift(x, y, d, i + st);
            assert((seq![i] + find_fwd(y, d, i + st)).map_values(|p: int| p + x.len()) =~= seq![k]
                + find_fwd(y, d, i + st).map_values(|p: int| p + x.len()));
        } else {
            lemma_find_fwd_shift(x, y, d, i + 1);
        }
    }
}

/// `texts` joined with `d` between each two.
pub open spec fn join_with(texts: Seq<Seq<u8>>, d: Seq<u8>) -> Seq<u8>
    decreases texts.len(),
{
    if texts.len() == 0 {
        Seq::empty()
    } else if texts.len() == 1 {
        texts[0]
    } else {
        texts[0] + d + join_with(texts.drop_first(), d)
    }
}

/// The texts of the fields that the delimiter ranges `rs` leave in `h`.
pub open spec fn field_texts(h: Seq<u8>, rs: Seq<(int, int)>) -> Seq<Seq<u8>> {
    let f = fields_fwd(rs, h.len() as int);
    Seq::new(f.len(), |k: int| h.subrange(f[k].0, f[k].1))
}

/// The fields of `h` split on the delimiter `d`, as the fixed finder finds it.
pub open spec fn split_on(h: Seq<u8>, d: Seq<u8>) -> Seq<Seq<u8>> {
    field_texts(h, occurrence_ranges(find_fwd(h, d, 0), d.len() as int))
}

/// The search over `t + d` first meets `d` where `t` ends.
pub open spec fn ends_at_delimiter(t: Seq<u8>, d: Seq<u8>) -> bool {
    forall|i: int| 0 <= i < t.len() ==> !occurs_at(t + d, d, i)
}

/// `d` does not occur in `t`.
pub open spec fn free_of(t: Seq<u8>, d: Seq<u8>) -> bool {
    forall|i: int| 0 <= i ==> !occurs_at(t, d, i)
}

/// Splitting texts joined with `d` gives the texts back, when the search
/// meets `d` only where each text ends.
#[verifier::spinoff_prover]
#[verifier::rlimit(30)]
pub(crate) proof fn lemma_split_join(texts: Seq<Seq<u8>>, d: Seq<u8>)
    requires
        d.len() > 0,
        texts.len() > 0,
        forall|k: int| 0 <= k < texts.len() - 1 ==> ends_at_delimiter(#[trigger] texts[k], d),
        free_of(texts.last(), d),
    ensures
        split_on(join_with(texts, d), d) == texts,
        find_fwd(join_with(texts, d), d, 0).len() == texts.len() - 1,
        texts.len() > 1 ==> find_fwd(join_with(texts, d), d, 0)[0] == texts[0].len(),
        forall|k: int|
            0 <= k < texts.len() - 2 ==> #[trigger] find_fwd(join_with(texts, d), d, 0)[k + 1] == find_fwd(
                join_with(texts, d),
                d,
                0,
            )[k] + d.len() + texts[k + 1].len(),
    decreases texts.len(),
{
    let j = join_with(texts, d);
    let t0 = texts[0];
    let dl = d.len() as int;
    if texts.len() == 1 {
        lemma_find_fwd_first(j, d, 0);
        assert(find_fwd(j, d, 0).len() == 0) by {
            if find_fwd(j, d, 0).len() > 0 {
                assert(occurs_at(j, d, find_fwd(j, d, 0)[0]));
            }
        }
        assert(split_on(j, d) =~= texts) by {
            assert(occurrence_ranges(find_fwd(j, d, 0), dl) =~= Seq::<(int, int)>::empty());
            assert(j.subrange(0, j.len() as int) =~= j);
        }
    } else {
        let rest = texts.drop_first();
        let j2 = join_with(rest, d);
        let x = t0 + d;
        assert(j =~= x + j2);
        assert forall|k: int| 0 <= k < rest.len() - 1 implies ends_at_delimiter(#[trigger] rest[k], d) by {
            assert(rest[k] == texts[k + 1]);
        }
        assert(rest.last() == texts.last());
        lemma_split_join(rest, d);
        let n0 = t0.len() as int;
        assert forall|i: int| 0 <= i < n0 implies !occurs_at(j, d, i) by {
            assert(ends_at_delimiter(texts[0], d));
            lemma_occurs_prefix(x, j2, d, i);
        }
        lemma_find_fwd_skip(j, d, 0, n0);
        assert(occurs_at(j, d, n0)) by {
            assert(j.subrange(n0, n0 + dl) =~= d);
        }
        lemma_find_fwd_shift(x, j2, d, 0);
        let p2 = find_fwd(j2, d, 0);
        let p = find_fwd(j, d, 0);
        assert(p =~= seq![n0] + p2.map_values(|q: int| q + x.len()));
        let rs = occurrence_ranges(p, dl);
        let rs2 = occurrence_ranges(p2, dl);
        let f = fields_fwd(rs, j.len() as int);
        let f2 = fields_fwd(rs2, j2.len() as int);
        let off = x.len() as int;
        assert(f.len() == f2.len() + 1);
        assert(f[0] == (0int, n0));
        assert forall|k: int| 0 <= k < f2.len() implies #[trigger] f[k + 1] == (f2[k].0 + off, f2[k].1 + off) by {
            if k > 0 {
                assert(rs[k] == (p2[k - 1] + off, p2[k - 1] + off + dl));
                assert(rs2[k - 1] == (p2[k - 1], p2[k - 1] + dl));
            } else {
                assert(rs[0] == (n0, n0 + dl));
            }
            if k < rs2.len() {
                assert(rs[k + 1] == (p2[k] + off, p2[k] + off + dl));
                assert(rs2[k] == (p2[k], p2[k] + dl));
            }
        }
        let st = split_on(j, d);
        let st2 = split_on(j2, d);
        crate::search::lemma_find_fwd_wf(j2, d, 0);
        assert forall|k: int| 0 <= k < st.len() implies #[trigger] st[k] == texts[k] by {
            if k == 0 {
                assert(j.subrange(0, n0) =~= t0);
            } else {
                let (a, b) = f2[k - 1];
                assert(0 <= a <= b <= j2.len()) by {
                    if k - 1 > 0 {
                        assert(rs2[k - 2] == (p2[k - 2], p2[k - 2] + dl));
                        assert(occurs_at(j2, d, p2[k - 2]));
                    }
                    if k - 1 < rs2.len() {
                        assert(rs2[k - 1] == (p2[k - 1], p2[k - 1] + dl));
                        assert(occurs_at(j2, d, p2[k - 1]));
                    }
                    if 0 < k - 1 < rs2.len() {
                        assert(p2[k - 2] + crate::search::step(d) <= p2[k - 1]);
                    }
                }
                assert(j.subrange(a + off, b + off) =~= j2.subrange(a, b));
                assert(st2[k - 1] == texts[k]);
            }
        }
        assert(st =~= texts);
        assert forall|k: int| 0 <= k < texts.len() - 2 implies #[trigger] p[k + 1] == p[k] + dl + texts[k
            + 1].len() by {
            if k == 0 {
                assert(p2[0] == rest[0].len());
                assert(rest[0] == texts[1]);
            } else {
                assert(p2[k] == p2[k - 1] + dl + rest[k].len());
                assert(rest[k] == texts[k + 1]);
            }
        }
    }
}

/// The texts of the fields that the delimiter ranges `rs` leave in `h`,
/// the first one starting at `start`.
pub open spec fn texts_from(h: Seq<u8>, rs: Seq<(int, int)>, start: int) -> Seq<Seq<u8>>
    decreases rs.len(),
{
    if rs.len() == 0 {
        seq![h.subrange(start, h.len() as int)]
    } else {
        seq![h.subrange(start, rs[0].0)] + texts_from(h, rs.drop_first(), rs[0].1)
    }
}

proof fn lemma_texts_from(h: Seq<u8>, rs: Seq<(int, int)>, start: int)
    ensures
        texts_from(h, rs, start) == Seq::new(
            (rs.len() + 1) as nat,
            |k: int|
                h.subrange(
                    if k == 0 {
                        start
                    } else {
                        rs[k - 1].1
                    },
                    if k < rs.len() {
                        rs[k].0
                    } else {
                        h.len() as int
                    },
                ),
        ),
    decreases rs.len(),
{
    if rs.len() > 0 {
        lemma_texts_from(h, rs.drop_first(), rs[0].1);
    }
    let t = texts_from(h, rs, start);
    let want = Seq::new(
        (rs.len() + 1) as nat,
        |k: int|
            h.subrange(
                if k == 0 {
                    start
                } else {
                    rs[k - 1].1
                },
                if k < rs.len() {
                    rs[k].0
                } else {
                    h.len() as int
                },
            ),
    );
    assert(t =~= want);
}

/// The search from the end of an occurrence goes on with the next ones.
proof fn lemma_find_fwd_rest(h: Seq<u8>, d: Seq<u8>, k: int)
    requires
        0 <= k < find_fwd(h, d, 0).len(),
    ensures
        find_fwd(h, d, 0).skip(k + 1) == find_fwd(h, d, find_fwd(h, d, 0)[k] + crate::search::step(d)),
        forall|i: int|
            (if k == 0 {
                0
            } else {
                find_fwd(h, d, 0)[k - 1] + crate::search::step(d)
            }) <= i < find_fwd(h, d, 0)[k] ==> !occurs_at(h, d, i),
    decreases k,
{
    let ps = find_fwd(h, d, 0);
    let st = crate::search::step(d);
    let start = if k == 0 {
        0
    } else {
        ps[k - 1] + st
    };
    crate::search::lemma_find_fwd_wf(h, d, 0);
    if k == 0 {
        assert(ps.skip(0) =~= ps);
    } else {
        lemma_find_fwd_rest(h, d, k - 1);
    }
    assert(ps.skip(k) == find_fwd(h, d, start));
    lemma_find_fwd_first(h, d, start);
    assert(ps.skip(k)[0] == ps[k]);
    assert(find_fwd(h, d, start).len() > 0);
    assert(ps.skip(k + 1) =~= ps.skip(k).drop_first());
    assert(find_fwd(h, d, start).drop_first() =~= find_fwd(h, d, ps[k] + st));
}

/// Past a run start, compressing skips the rest of the run.
proof fn lemma_compress_skips_run(line: Seq<u8>, d: Seq<u8>, ps: Seq<int>, k: int, e: int)
    requires
        d.len() > 0,
        0 <= k <= e < ps.len(),
        forall|j: int| k <= j < e ==> #[trigger] ps[j + 1] == ps[j] + d.len(),
        forall|j: int| 0 <= j < ps.len() ==> #[trigger] ps[j] >= 0,
    ensures
        spec_compress_from(line, d, ps.skip(k + 1), ps[k] + d.len()) == spec_compress_from(
            line,
            d,
            ps.skip(e + 1),
            ps[e] + d.len(),
        ),
    decreases e - k,
{
    if k < e {
        reveal(spec_compress_from);
        let q = ps.skip(k + 1);
        assert(q[0] == ps[k + 1]);
        assert(q.drop_first() =~= ps.skip(k + 2));
        assert(spec_compress_from(line, d, q, ps[k] + d.len()) == spec_compress_from(
            line,
            d,
            ps.skip(k + 2),
            ps[k + 1] + d.len(),
        )) by {
            assert(Seq::<u8>::empty() + spec_compress_from(line, d, ps.skip(k + 2), ps[k + 1] + d.len())
                =~= spec_compress_from(line, d, ps.skip(k + 2), ps[k + 1] + d.len()));
        }
        lemma_compress_skips_run(line, d, ps, k + 1, e);
    }
}

/// A text of `line` that the search crosses without meeting `d`, followed
/// in `line` by `d`: the search over the text and `d` meets `d` where the
/// text ends.
#[verifier::spinoff_prover]
proof fn lemma_ends_at_delimiter(line: Seq<u8>, d: Seq<u8>, a: int, b: int)
    requires
        0 <= a <= b,
        occurs_at(line, d, b),
        forall|i: int| a <= i < b ==> !occurs_at(line, d, i),
    ensures
        ends_at_delimiter(line.subrange(a, b), d),
{
    let t = line.subrange(a, b);
    let dl = d.len() as int;
    let u = line.subrange(a, b + dl);
    assert(line.subrange(b, b + dl) == d);
    assert(t + d =~= u) by {
        assert forall|i: int| 0 <= i < u.len() implies (t + d)[i] == #[trigger] u[i] by {
            if i >= t.len() {
                assert(d[i - t.len()] == line.subrange(b, b + dl)[i - t.len()]);
            }
        }
    }
    assert forall|i: int| 0 <= i < t.len() implies !occurs_at(t + d, d, i) by {
        lemma_window_in_line(line, d, a, b, i);
    }
}

/// A window of `d.len()` bytes that starts in `line[a..b]` reads the same in
/// `line[a..b + d.len()]`.
proof fn lemma_window_in_line(line: Seq<u8>, d: Seq<u8>, a: int, b: int, i: int)
    requires
        0 <= a <= b,
        b + d.len() <= line.len(),
        0 <= i < b - a,
        forall|x: int| a <= x < b ==> !occurs_at(line, d, x),
        line.subrange(a, b) + d == line.subrange(a, b + d.len()),
    ensures
        !occurs_at(line.subrange(a, b) + d, d, i),
{
    let u = line.subrange(a, b + d.len());
    assert(u.subrange(i, i + d.len()) =~= line.subrange(a + i, a + i + d.len()));
    assert(!occurs_at(line, d, a + i));
}

/// Compressing from a run start gives the greedy field texts from there,
/// joined with one delimiter; the search meets `d` only where each of them
/// ends, and not at all in the last one.
proof fn lemma_compress_is_join(line: Seq<u8>, d: Seq<u8>, k: int, prev: int)
    requires
        d.len() > 0,
        0 <= k <= find_fwd(line, d, 0).len(),
        prev == if k == 0 {
            0
        } else {
            find_fwd(line, d, 0)[k - 1] + d.len()
        },
        k == 0 || k == find_fwd(line, d, 0).len() || find_fwd(line, d, 0)[k] != find_fwd(line, d, 0)[k - 1]
            + d.len(),
    ensures
        ({
            let ps = find_fwd(line, d, 0);
            let t = texts_from(line, greedy_fwd(ps, d.len() as int, k), prev);
            &&& spec_compress_from(line, d, ps.skip(k), prev) == join_with(t, d)
            &&& t.len() > 0
            &&& forall|w: int| 0 <= w < t.len() - 1 ==> ends_at_delimiter(#[trigger] t[w], d)
            &&& free_of(t.last(), d)
            &&& forall|w: int| 0 <= w < t.len() - 1 && (w > 0 || k > 0) ==> (#[trigger] t[w]).len() > 0
        }),
    decreases find_fwd(line, d, 0).len() - k,
{
    let ps = find_fwd(line, d, 0);
    let dl = d.len() as int;
    let len = line.len() as int;
    crate::search::lemma_find_fwd_wf(line, d, 0);
    assert forall|j: int| 0 <= j < ps.len() implies #[trigger] ps[j] >= 0 && ps[j] + dl <= len by {
        assert(occurs_at(line, d, ps[j]));
    }
    assert(0 <= prev <= len) by {
        if k > 0 {
            assert(occurs_at(line, d, ps[k - 1]));
        }
    }
    reveal(spec_compress_from);
    if k == ps.len() {
        assert(greedy_fwd(ps, dl, k) =~= Seq::<(int, int)>::empty());
        let t = line.subrange(prev, len);
        assert(texts_from(line, greedy_fwd(ps, dl, k), prev) =~= seq![t]);
        assert(ps.skip(k) =~= Seq::<int>::empty());
        if prev == len {
            assert(t =~= Seq::<u8>::empty());
        }
        assert(find_fwd(line, d, prev).len() == 0) by {
            if k > 0 {
                lemma_find_fwd_rest(line, d, k - 1);
                assert(ps.skip(k).len() == 0);
            } else {
                assert(ps.len() == 0);
            }
        }
        lemma_find_fwd_first(line, d, prev);
        assert forall|i: int| 0 <= i implies !occurs_at(t, d, i) by {
            if occurs_at(t, d, i) {
                assert(line.subrange(prev + i, prev + i + dl) =~= t.subrange(i, i + dl));
                assert(occurs_at(line, d, prev + i));
            }
        }
    } else {
        lemma_run_end_fwd(ps, dl, k);
        let e = run_end_fwd(ps, dl, k);
        lemma_find_fwd_rest(line, d, k);
        let t = line.subrange(prev, ps[k]);
        assert(prev <= ps[k]) by {
            if k > 0 {
                assert(ps[k - 1] + crate::search::step(d) <= ps[k]);
            }
        }
        lemma_ends_at_delimiter(line, d, prev, ps[k]);
        assert(e + 1 == ps.len() || ps[e + 1] != ps[e] + dl);
        lemma_compress_is_join(line, d, e + 1, ps[e] + dl);
        let rest = texts_from(line, greedy_fwd(ps, dl, e + 1), ps[e] + dl);
        assert(greedy_fwd(ps, dl, k) == seq![(ps[k], ps[e] + dl)] + greedy_fwd(ps, dl, e + 1));
        assert(texts_from(line, greedy_fwd(ps, dl, k), prev) == seq![t] + rest) by {
            assert((seq![(ps[k], ps[e] + dl)] + greedy_fwd(ps, dl, e + 1)).drop_first() =~= greedy_fwd(
                ps,
                dl,
                e + 1,
            ));
        }
        assert(join_with(seq![t] + rest, d) == t + d + join_with(rest, d)) by {
            assert((seq![t] + rest).drop_first() =~= rest);
        }
        let q = ps.skip(k);
        assert(q[0] == ps[k]);
        assert(q.drop_first() =~= ps.skip(k + 1));
        assert(spec_compress_from(line, d, q, prev) == t + d + spec_compress_from(
            line,
            d,
            ps.skip(k + 1),
            ps[k] + dl,
        )) by {
            if ps[k] == 0 {
                assert(t =~= Seq::<u8>::empty());
                assert(t + d =~= d);
            } else if k > 0 {
                assert(ps[k] > prev);
            }
        }
        assert forall|j: int| k <= j < e implies #[trigger] ps[j + 1] == ps[j] + dl by {}
        lemma_compress_skips_run(line, d, ps, k, e);
        let all = seq![t] + rest;
        assert forall|w: int| 0 <= w < all.len() - 1 implies ends_at_delimiter(#[trigger] all[w], d) by {
            if w == 0 {
                assert(all[0] == t);
            } else {
                assert(all[w] == rest[w - 1]);
            }
        }
        assert forall|w: int| 0 <= w < all.len() - 1 && (w > 0 || k > 0) implies (#[trigger] all[w]).len()
            > 0 by {
            if w == 0 {
                assert(all[0] == t);
                assert(ps[k] != ps[k - 1] + dl);
            } else {
                assert(all[w] == rest[w - 1]);
            }
        }
        assert(all.last() == rest.last());
    }
}

/// The positions from `pos` to `len`, in order.
pub open spec fn positions_from(pos: int, len: int) -> Seq<int> {
    Seq::new((len + 1 - pos) as nat, |i: int| pos + i)
}

/// An empty delimiter occurs at every position, the end included.
proof fn lemma_find_fwd_empty(h: Seq<u8>, pos: int)
    requires
        0 <= pos <= h.len() + 1,
    ensures
        find_fwd(h, Seq::<u8>::empty(), pos) == positions_from(pos, h.len() as int),
    decreases h.len() + 1 - pos,
{
    let e = Seq::<u8>::empty();
    if pos <= h.len() {
        assert(occurs_at(h, e, pos)) by {
            assert(h.subrange(pos, pos) =~= e);
        }
        lemma_find_fwd_empty(h, pos + 1);
        assert(positions_from(pos, h.len() as int) =~= seq![pos] + positions_from(pos + 1, h.len() as int));
    } else {
        assert(positions_from(pos, h.len() as int) =~= Seq::<int>::empty());
    }
}

/// Compressing an empty delimiter keeps the text from `k - 1` on.
proof fn lemma_compress_empty(line: Seq<u8>, k: int)
    requires
        1 <= k <= line.len() + 1,
    ensures
        spec_compress_from(line, Seq::<u8>::empty(), positions_from(k, line.len() as int), k - 1)
            == line.subrange(k - 1, line.len() as int),
    decreases line.len() + 1 - k,
{
    reveal(spec_compress_from);
    let len = line.len() as int;
    let ps = positions_from(k, len);
    if k <= len {
        lemma_compress_empty(line, k + 1);
        assert(ps[0] == k);
        assert(ps.drop_first() =~= positions_from(k + 1, len));
        assert(line.subrange(k - 1, k) + Seq::<u8>::empty() + line.subrange(k, len) =~= line.subrange(k - 1, len));
    } else {
        assert(ps =~= Seq::<int>::empty());
        assert(line.subrange(k - 1, len) =~= Seq::<u8>::empty());
    }
}

/// With runs of length zero, each position is its own run.
proof fn lemma_greedy_zero(ps: Seq<int>, k: int)
    requires
        0 <= k <= ps.len(),
        forall|i: int, j: int| 0 <= i < j < ps.len() ==> ps[i] < ps[j],
    ensures
        greedy_fwd(ps, 0, k) == occurrence_ranges(ps.skip(k), 0),
    decreases ps.len() - k,
{
    if k < ps.len() {
        lemma_greedy_zero(ps, k + 1);
        assert(run_end_fwd(ps, 0, k) == k) by {
            if k + 1 < ps.len() {
                assert(ps[k] < ps[k + 1]);
            }
        }
        assert(occurrence_ranges(ps.skip(k), 0) =~= seq![(ps[k], ps[k] + 0)] + occurrence_ranges(
            ps.skip(k + 1),
            0,
        ));
    } else {
        assert(occurrence_ranges(ps.skip(k), 0) =~= Seq::<(int, int)>::empty());
    }
}

/// `-g` cuts as if each run of back-to-back delimiters were one delimiter:
/// the fields that the greedy finder leaves are the fields of the line once
/// its runs are compressed (`-p`).
pub proof fn law_greedy_cuts_like_compressed(line: Seq<u8>, g: FixedGreedyFinder)
    ensures
        field_texts(line, g.spec_ranges(line)) == split_on(spec_compress(line, g.pattern@), g.pattern@),
{
    let d = g.pattern@;
    let ps = find_fwd(line, d, 0);
    let gr = greedy_fwd(ps, d.len() as int, 0);
    assert(g.spec_ranges(line) == gr);
    if d.len() == 0 {
        let len = line.len() as int;
        assert(d =~= Seq::<u8>::empty());
        lemma_find_fwd_empty(line, 0);
        lemma_greedy_zero(ps, 0);
        assert(ps.skip(0) =~= ps);
        assert(spec_compress(line, d) == line) by {
            reveal(spec_compress_from);
            lemma_compress_empty(line, 1);
            assert(ps.drop_first() =~= positions_from(1, len));
            assert(line.subrange(0, len) =~= line);
            assert(d + line =~= line);
        }
    } else {
        lemma_compress_is_join(line, d, 0, 0);
        assert(ps.skip(0) =~= ps);
        lemma_texts_from(line, gr, 0);
        let texts = texts_from(line, gr, 0);
        assert(field_texts(line, gr) =~= texts);
        lemma_split_join(texts, d);
    }
}

/// Compressing leaves no two delimiters back to back: in the compressed
/// line, text lies between each delimiter found and the next one.
pub proof fn law_compress_leaves_no_back_to_back_delimiters(line: Seq<u8>, d: Seq<u8>)
    ensures
        ({
            let p = find_fwd(spec_compress(line, d), d, 0);
            forall|k: int| 0 <= k < p.len() - 1 ==> #[trigger] p[k + 1] > p[k] + d.len()
        }),
{
    let ps = find_fwd(line, d, 0);
    if d.len() == 0 {
        let len = line.len() as int;
        assert(d =~= Seq::<u8>::empty());
        lemma_find_fwd_empty(line, 0);
        assert(spec_compress(line, d) == line) by {
            reveal(spec_compress_from);
            lemma_compress_empty(line, 1);
            assert(ps.drop_first() =~= positions_from(1, len));
            assert(line.subrange(0, len) =~= line);
            assert(d + line =~= line);
        }
    } else {
        let gr = greedy_fwd(ps, d.len() as int, 0);
        lemma_compress_is_join(line, d, 0, 0);
        assert(ps.skip(0) =~= ps);
        let texts = texts_from(line, gr, 0);
        lemma_split_join(texts, d);
        let p = find_fwd(spec_compress(line, d), d, 0);
        assert forall|k: int| 0 <= k < p.len() - 1 implies #[trigger] p[k + 1] > p[k] + d.len() by {
            assert(texts[k + 1].len() > 0);
        }
    }
}

/// The value of a hexadecimal digit, or -1.
pub open spec fn hex_value(c: char) -> int {
    let v = c as int;
    if 48 <= v <= 57 {
        v - 48
    } else if 65 <= v <= 70 {
        v - 55
    } else if 97 <= v <= 102 {
        v - 87
    } else {
        -1
    }
}

/// The value of the four hexadecimal digits of `t` from `i` on, or -1.
pub open spec fn hex4(t: Seq<char>, i: int) -> int {
    let a = hex_value(t[i]);
    let b = hex_value(t[i + 1]);
    let c = hex_value(t[i + 2]);
    let d = hex_value(t[i + 3]);
    if a < 0 || b < 0 || c < 0 || d < 0 {
        -1
    } else {
        a * 4096 + b * 256 + c * 16 + d
    }
}

/// `c` in front of the decoded text, when there is one.
pub open spec fn prepend(c: char, o: Option<Seq<char>>) -> Option<Seq<char>> {
    match o {
        Some(r) => Some(seq![c] + r),
        None => None,
    }
}

/// What the inside of a JSON string literal decodes to, or nothing when it
/// is not valid: unescaped characters other than a quote, a backslash or a
/// control character, the short escapes, and `\uXXXX` (a surrogate pair
/// for a character beyond the basic multilingual plane).
pub open spec fn json_unescape(t: Seq<char>) -> Option<Seq<char>>
    decreases t.len(),
{
    if t.len() == 0 {
        Some(Seq::empty())
    } else if t[0] != '\\' {
        if t[0] == '"' || (t[0] as u32) < 0x20 {
            None
        } else {
            prepend(t[0], json_unescape(t.drop_first()))
        }
    } else if t.len() < 2 {
        None
    } else if t[1] == '"' || t[1] == '\\' || t[1] == '/' {
        prepend(t[1], json_unescape(t.subrange(2, t.len() as int)))
    } else if t[1] == 'b' {
        prepend(8u32 as char, json_unescape(t.subrange(2, t.len() as int)))
    } else if t[1] == 'f' {
        prepend(12u32 as char, json_unescape(t.subrange(2, t.len() as int)))
    } else if t[1] == 'n' {
        prepend(10u32 as char, json_unescape(t.subrange(2, t.len() as int)))
    } else if t[1] == 'r' {
        prepend(13u32 as char, json_unescape(t.subrange(2, t.len() as int)))
    } else if t[1] == 't' {
        prepend(9u32 as char, json_unescape(t.subrange(2, t.len() as int)))
    } else if t[1] == 'u' && t.len() >= 6 && hex4(t, 2) >= 0 {
        let u = hex4(t, 2);
        if 0xD800 <= u < 0xDC00 {
            if t.len() >= 12 && t[6] == '\\' && t[7] == 'u' && 0xDC00 <= hex4(t, 8) < 0xE000 {
                prepend(
                    (0x10000 + (u - 0xD800) * 1024 + (hex4(t, 8) - 0xDC00)) as char,
                    json_unescape(t.subrange(12, t.len() as int)),
                )
            } else {
                None
            }
        } else if 0xDC00 <= u < 0xE000 {
            None
        } else {
            prepend(u as char, json_unescape(t.subrange(6, t.len() as int)))
        }
    } else {
        None
    }
}

proof fn lemma_hex_digit(n: u32)
    requires
        n < 16,
    ensures
        hex_value(hex_digit(n)) == n,
{
    if n < 10 {
        assert((((48 + n) as char) as int) == 48 + n);
    } else {
        assert((((55 + n) as char) as int) == 55 + n);
    }
}

proof fn lemma_hex_escape(v: u32, rest: Seq<char>)
    requires
        v < 0x10000,
    ensures
        ({
            let t = hex_escape(v) + rest;
            &&& t.len() == rest.len() + 6
            &&& t[0] == '\\' && t[1] == 'u'
            &&& hex4(t, 2) == v
            &&& t.subrange(6, t.len() as int) == rest
        }),
{
    let t = hex_escape(v) + rest;
    lemma_hex_digit((v / 4096) % 16);
    lemma_hex_digit((v / 256) % 16);
    lemma_hex_digit((v / 16) % 16);
    lemma_hex_digit(v % 16);
    assert(t[2] == hex_digit((v / 4096) % 16));
    assert(t[3] == hex_digit((v / 256) % 16));
    assert(t[4] == hex_digit((v / 16) % 16));
    assert(t[5] == hex_digit(v % 16));
    assert(((v / 4096) % 16) * 4096 + ((v / 256) % 16) * 256 + ((v / 16) % 16) * 16 + v % 16 == v) by (bit_vector)
        requires
            v < 0x10000,
    ;
    assert(t.subrange(6, t.len() as int) =~= rest);
}

/// The escape of one character decodes to it.
proof fn lemma_unescape_char(c: char, rest: Seq<char>)
    ensures
        json_unescape(escape_char(c) + rest) == prepend(c, json_unescape(rest)),
{
    let v = c as u32;
    let e = escape_char(c);
    let t = e + rest;
    assert(((c as u32) as char) == c);
    if c == '"' || c == '\\' || v == 8 || v == 9 || v == 10 || v == 12 || v == 13 {
        assert(t.subrange(2, t.len() as int) =~= rest);
        assert(t[0] == '\\');
    } else if v <= 0x1F || v == 0x7F || v == 0x2028 || v == 0x2029 || (v > 0x7F && v < 0x10000) {
        lemma_hex_escape(v, rest);
    } else if v > 0x7F {
        let hi = (0xD800 + (v - 0x10000) / 1024) as u32;
        let lo = (0xDC00 + (v - 0x10000) % 1024) as u32;
        assert(v <= 0x10FFFF);
        assert(0xD800 <= hi < 0xDC00);
        assert(0xDC00 <= lo < 0xE000);
        lemma_hex_escape(lo, rest);
        let tail = hex_escape(lo) + rest;
        lemma_hex_escape(hi, tail);
        assert(t =~= hex_escape(hi) + tail);
        assert(t[6] == tail[0] && t[7] == tail[1]);
        assert(t.subrange(8, t.len() as int) =~= tail.subrange(2, tail.len() as int));
        assert(hex4(t, 8) == hex4(tail, 2)) by {
            assert(t[8] == tail[2]);
            assert(t[9] == tail[3]);
            assert(t[10] == tail[4]);
            assert(t[11] == tail[5]);
        }
        assert(t.subrange(12, t.len() as int) =~= rest);
        assert(0x10000 + (hi - 0xD800) * 1024 + (lo - 0xDC00) == v) by (nonlinear_arith)
            requires
                hi == 0xD800 + (v - 0x10000) / 1024,
                lo == 0xDC00 + (v - 0x10000) % 1024,
                v >= 0x10000,
        ;
    } else {
        assert(e == seq![c]);
        assert(t.drop_first() =~= rest);
    }
}

proof fn lemma_escape_all_first(s: Seq<char>)
    requires
        s.len() > 0,
    ensures
        escape_all(s) == escape_char(s[0]) + escape_all(s.drop_first()),
    decreases s.len(),
{
    if s.len() == 1 {
        assert(s.drop_last() =~= Seq::<char>::empty());
        assert(s.drop_first() =~= Seq::<char>::empty());
        assert(escape_all(s.drop_first()) =~= Seq::<char>::empty());
        assert(escape_all(s) =~= escape_char(s[0]));
        assert(escape_char(s[0]) + Seq::<char>::empty() =~= escape_char(s[0]));
    } else {
        lemma_escape_all_first(s.drop_last());
        assert(s.drop_last().drop_first() =~= s.drop_first().drop_last());
        assert(s.drop_first().last() == s.last());
        assert(s.drop_last()[0] == s[0]);
        assert(escape_char(s[0]) + escape_all(s.drop_first().drop_last()) + escape_char(s.last()) =~= escape_char(
            s[0],
        ) + (escape_all(s.drop_first().drop_last()) + escape_char(s.last())));
    }
}

proof fn lemma_unescape_escape_all(s: Seq<char>)
    ensures
        json_unescape(escape_all(s)) == Some(s),
    decreases s.len(),
{
    if s.len() == 0 {
        assert(escape_all(s) =~= Seq::<char>::empty());
    } else {
        lemma_escape_all_first(s);
        lemma_unescape_escape_all(s.drop_first());
        lemma_unescape_char(s[0], escape_all(s.drop_first()));
        assert(seq![s[0]] + s.drop_first() =~= s);
    }
}

proof fn lemma_unescape_plain(s: Seq<char>)
    requires
        forall|i: int| 0 <= i < s.len() ==> !crate::json::needs_escape(#[trigger] s[i]),
    ensures
        json_unescape(s) == Some(s),
    decreases s.len(),
{
    if s.len() > 0 {
        assert(!crate::json::needs_escape(s[0]));
        assert forall|i: int| 0 <= i < s.drop_first().len() implies !crate::json::needs_escape(
            #[trigger] s.drop_first()[i],
        ) by {
            assert(s.drop_first()[i] == s[i + 1]);
        }
        lemma_unescape_plain(s.drop_first());
        assert(seq![s[0]] + s.drop_first() =~= s);
    }
}

/// The escaped text decodes back to its input: put between quotes, the
/// result of `escape_json` is a JSON string literal of the text.
pub proof fn law_escaped_json_decodes_to_input(s: Seq<char>)
    ensures
        json_unescape(crate::json::spec_escape_json(s)) == Some(s),
{
    if exists|i: int| 0 <= i < s.len() && #[trigger] crate::json::needs_escape(s[i]) {
        lemma_unescape_escape_all(s);
    } else {
        lemma_unescape_plain(s);
    }
}

/// A character that JSON text carries as it is: no quote, no backslash, no
/// control character, no DEL, no line or paragraph separator.
pub open spec fn json_plain_char(c: char) -> bool {
    let v = c as u32;
    c != '"' && c != '\\' && v >= 0x20 && v != 0x7F && v != 0x2028 && v != 0x2029
}

/// Text that stands safely inside a JSON string literal: each character is
/// one JSON carries as it is, or belongs to an escape sequence (a backslash
/// and one of `"`, `\`, `b`, `f`, `n`, `r`, `t`, or `u` and four hex digits).
/// So no quote or backslash stands outside an escape.
pub open spec fn json_safe_text(t: Seq<char>) -> bool
    decreases t.len(),
{
    if t.len() == 0 {
        true
    } else if t[0] == '\\' {
        if t.len() >= 2 && (t[1] == '"' || t[1] == '\\' || t[1] == 'b' || t[1] == 'f' || t[1] == 'n' || t[1]
            == 'r' || t[1] == 't') {
            json_safe_text(t.subrange(2, t.len() as int))
        } else if t.len() >= 6 && t[1] == 'u' && hex4(t, 2) >= 0 {
            json_safe_text(t.subrange(6, t.len() as int))
        } else {
            false
        }
    } else {
        json_plain_char(t[0]) && json_safe_text(t.drop_first())
    }
}

/// No character of `t` is a control character, DEL, or a line or
/// paragraph separator.
pub open spec fn no_raw_control(t: Seq<char>) -> bool {
    forall|i: int|
        0 <= i < t.len() ==> (#[trigger] t[i] as u32) >= 0x20 && t[i] as u32 != 0x7F && t[i] as u32 != 0x2028
            && t[i] as u32 != 0x2029
}

proof fn lemma_hex_digit_printable(n: u32)
    requires
        n < 16,
    ensures
        0x20 <= hex_digit(n) as u32 <= 0x7E,
{
    if n < 10 {
        assert((((48 + n) as char) as u32) == 48 + n);
    } else {
        assert((((55 + n) as char) as u32) == 55 + n);
    }
}

proof fn lemma_hex_escape_printable(v: u32)
    ensures
        forall|i: int| 0 <= i < hex_escape(v).len() ==> 0x20 <= #[trigger] hex_escape(v)[i] as u32 <= 0x7E,
{
    lemma_hex_digit_printable((v / 4096) % 16);
    lemma_hex_digit_printable((v / 256) % 16);
    lemma_hex_digit_printable((v / 16) % 16);
    lemma_hex_digit_printable(v % 16);
}

/// The escape of a character is printable ASCII.
proof fn lemma_escape_char_printable(c: char)
    ensures
        forall|i: int| 0 <= i < escape_char(c).len() ==> 0x20 <= #[trigger] escape_char(c)[i] as u32 <= 0x7E,
{
    let v = c as u32;
    if c == '"' || c == '\\' || v == 8 || v == 9 || v == 10 || v == 12 || v == 13 {
    } else if v <= 0x1F || v == 0x7F || v == 0x2028 || v == 0x2029 || (v > 0x7F && v < 0x10000) {
        lemma_hex_escape_printable(v);
    } else if v > 0x7F {
        let hi = (0xD800 + (v - 0x10000) / 1024) as u32;
        let lo = (0xDC00 + (v - 0x10000) % 1024) as u32;
        lemma_hex_escape_printable(hi);
        lemma_hex_escape_printable(lo);
        let e = hex_escape(hi) + hex_escape(lo);
        assert forall|i: int| 0 <= i < e.len() implies 0x20 <= #[trigger] e[i] as u32 <= 0x7E by {
            if i >= 6 {
                assert(e[i] == hex_escape(lo)[i - 6]);
            }
        }
    } else {
        assert(escape_char(c) == seq![c]);
    }
}

/// Everything escaped is printable ASCII.
proof fn lemma_escape_all_printable(s: Seq<char>)
    ensures
        forall|i: int| 0 <= i < escape_all(s).len() ==> 0x20 <= #[trigger] escape_all(s)[i] as u32 <= 0x7E,
    decreases s.len(),
{
    if s.len() > 0 {
        lemma_escape_all_printable(s.drop_last());
        lemma_escape_char_printable(s.last());
        let a = escape_all(s.drop_last());
        let b = escape_char(s.last());
        assert(escape_all(s) == a + b);
        assert forall|i: int| 0 <= i < (a + b).len() implies 0x20 <= #[trigger] (a + b)[i] as u32 <= 0x7E by {
            if i < a.len() {
                assert((a + b)[i] == a[i]);
            } else {
                assert((a + b)[i] == b[i - a.len()]);
            }
        }
    }
}

/// The escape of one character, in front of safe text, is safe text.
proof fn lemma_escape_char_safe(c: char, rest: Seq<char>)
    requires
        json_safe_text(rest),
    ensures
        json_safe_text(escape_char(c) + rest),
{
    let v = c as u32;
    let t = escape_char(c) + rest;
    if c == '"' || c == '\\' || v == 8 || v == 9 || v == 10 || v == 12 || v == 13 {
        assert(t.subrange(2, t.len() as int) =~= rest);
        assert(t[0] == '\\');
    } else if v <= 0x1F || v == 0x7F || v == 0x2028 || v == 0x2029 || (v > 0x7F && v < 0x10000) {
        lemma_hex_escape(v, rest);
    } else if v > 0x7F {
        let hi = (0xD800 + (v - 0x10000) / 1024) as u32;
        let lo = (0xDC00 + (v - 0x10000) % 1024) as u32;
        assert(v <= 0x10FFFF);
        lemma_hex_escape(lo, rest);
        let tail = hex_escape(lo) + rest;
        assert(json_safe_text(tail));
        lemma_hex_escape(hi, tail);
        assert(t =~= hex_escape(hi) + tail);
    } else {
        assert(escape_char(c) == seq![c]);
        assert(t.drop_first() =~= rest);
        assert(json_plain_char(c));
    }
}

proof fn lemma_escape_all_safe(s: Seq<char>)
    ensures
        json_safe_text(escape_all(s)),
    decreases s.len(),
{
    if s.len() == 0 {
        assert(escape_all(s) =~= Seq::<char>::empty());
    } else {
        lemma_escape_all_first(s);
        lemma_escape_all_safe(s.drop_first());
        lemma_escape_char_safe(s[0], escape_all(s.drop_first()));
    }
}

/// Text whose characters JSON carries as they are is safe text.
proof fn lemma_plain_safe(s: Seq<char>)
    requires
        forall|i: int| 0 <= i < s.len() ==> !crate::json::needs_escape(#[trigger] s[i]),
    ensures
        json_safe_text(s),
    decreases s.len(),
{
    if s.len() > 0 {
        assert(!crate::json::needs_escape(s[0]));
        assert forall|i: int| 0 <= i < s.drop_first().len() implies !crate::json::needs_escape(
            #[trigger] s.drop_first()[i],
        ) by {
            assert(s.drop_first()[i] == s[i + 1]);
        }
        lemma_plain_safe(s.drop_first());
    }
}

/// The escaped text holds no raw quote or backslash (each stands in an
/// escape sequence), no control character, no DEL and no line or paragraph
/// separator: between quotes it is a JSON string literal as it stands.
pub proof fn law_escaped_json_is_safe_text(s: Seq<char>)
    ensures
        json_safe_text(crate::json::spec_escape_json(s)),
        no_raw_control(crate::json::spec_escape_json(s)),
{
    let t = crate::json::spec_escape_json(s);
    if exists|i: int| 0 <= i < s.len() && #[trigger] crate::json::needs_escape(s[i]) {
        lemma_escape_all_safe(s);
        lemma_escape_all_printable(s);
        assert forall|i: int| 0 <= i < t.len() implies (#[trigger] t[i] as u32) >= 0x20 && t[i] as u32 != 0x7F
            && t[i] as u32 != 0x2028 && t[i] as u32 != 0x2029 by {
            assert(0x20 <= t[i] as u32 <= 0x7E);
        }
    } else {
        lemma_plain_safe(s);
        assert forall|i: int| 0 <= i < t.len() implies (#[trigger] t[i] as u32) >= 0x20 && t[i] as u32 != 0x7F
            && t[i] as u32 != 0x2028 && t[i] as u32 != 0x2029 by {
            assert(!crate::json::needs_escape(s[i]));
        }
    }
}

/// Compressing says in one line what it does: the compressed line is the
/// fields of the line, each run of back-to-back delimiters counting as one,
/// joined with one delimiter.
pub proof fn law_compress_joins_greedy_fields(line: Seq<u8>, d: Seq<u8>)
    requires
        d.len() > 0,
    ensures
        spec_compress(line, d) == join_with(
            field_texts(line, greedy_fwd(find_fwd(line, d, 0), d.len() as int, 0)),
            d,
        ),
{
    let ps = find_fwd(line, d, 0);
    let gr = greedy_fwd(ps, d.len() as int, 0);
    lemma_compress_is_join(line, d, 0, 0);
    assert(ps.skip(0) =~= ps);
    lemma_texts_from(line, gr, 0);
    assert(field_texts(line, gr) =~= texts_from(line, gr, 0));
}

} // verus!
