//! What the fixed-memory stream prints for a line, told field by field: a
//! line made of fields prints each entry of the bounds in order, a filler as
//! it is and a bound as its fields joined by the output delimiter, whatever
//! the chunks the line arrives in.
use crate::laws::{ends_at_delimiter, join_with, lemma_split_join, split_on};
use crate::search::occurs_at;
use crate::options::spec_eol_byte;
use crate::side::{ErrorView, Side};
use crate::stream::{
    covers, is_last_field, lemma_feed_concat, line_start, out_delimiter, spec_byte, spec_cut_bytes_stream, spec_enter,
    spec_feed, spec_fillers_fallbacks, spec_finish, line_end_from, StreamOpt, StreamState,
};
use crate::userbounds::{BofView, UserBoundsView};
use vstd::prelude::*;

verus! {

/// The delimiter printed after a bound when the parts are joined.
pub open spec fn join_tail(opt: StreamOpt, b: UserBoundsView) -> Seq<u8> {
    if opt.join && !b.is_last {
        seq![out_delimiter(opt)]
    } else {
        Seq::empty()
    }
}

/// The last field that a bound takes in a line of `n` fields: its right
/// side, or the last field when it is open to the right.
pub open spec fn right_end(b: UserBoundsView, n: int) -> int {
    if b.r.value == usize::MAX {
        n - 1
    } else {
        b.r.value as int
    }
}

/// What one entry prints for a line with fields `fs`: a filler as it is, a
/// bound as its fields joined by the output delimiter.
pub open spec fn entry_out(opt: StreamOpt, fs: Seq<Seq<u8>>, e: BofView) -> Seq<u8> {
    match e {
        BofView::Filler(f) => f,
        BofView::Bound(b) => join_with(
            fs.subrange(b.l.value as int, right_end(b, fs.len() as int) + 1),
            seq![out_delimiter(opt)],
        ) + join_tail(opt, b),
    }
}

/// What the entries print, one after the other.
pub open spec fn entries_out(opt: StreamOpt, fs: Seq<Seq<u8>>, es: Seq<BofView>) -> Seq<u8>
    decreases es.len(),
{
    if es.len() == 0 {
        Seq::empty()
    } else {
        entry_out(opt, fs, es[0]) + entries_out(opt, fs, es.drop_first())
    }
}

/// The line made of the fields `fs`, with the delimiter between them.
pub open spec fn line_of(fs: Seq<Seq<u8>>, d: u8) -> Seq<u8> {
    join_with(fs, seq![d])
}

/// The bounds fit a line of `n` fields: each bound lies within the line
/// (left side at or before the right one; one open to the right is marked
/// last), each one starts after the previous one ends, and a filler is
/// followed by a bound or nothing.
pub open spec fn bounds_fit(es: Seq<BofView>, n: int) -> bool {
    &&& forall|j: int|
        0 <= j < es.len() && (#[trigger] es[j]) is Bound ==> es[j]->Bound_0.l.value <= right_end(es[j]->Bound_0, n)
            < n && (es[j]->Bound_0.r.value == usize::MAX ==> es[j]->Bound_0.is_last)
    &&& forall|a: int, b: int|
        0 <= a < b < es.len() && (#[trigger] es[a]) is Bound && (#[trigger] es[b]) is Bound
            ==> es[a]->Bound_0.r.value < es[b]->Bound_0.l.value
    &&& forall|j: int| 0 <= j < es.len() - 1 && (#[trigger] es[j]) is Filler ==> es[j + 1] is Bound
}

/// The fields hold neither the delimiter nor the line terminator.
pub open spec fn plain_fields(fs: Seq<Seq<u8>>, d: u8, eol: u8) -> bool {
    forall|j: int, i: int| 0 <= j < fs.len() && 0 <= i < fs[j].len() ==> #[trigger] fs[j][i] != d && fs[j][i] != eol
}

/// What is left to print at the start of field `k`, entry `i` waiting: a
/// bound already begun gives the rest of its fields, with the delimiter in
/// front (nothing once the line has no more fields); then the entries after
/// it.
pub open spec fn rest_out(opt: StreamOpt, fs: Seq<Seq<u8>>, i: int, k: int) -> Seq<u8> {
    let es = opt.bounds.list@;
    if 0 <= i < es.len() && es[i] is Bound && es[i]->Bound_0.l.value < k {
        let b = es[i]->Bound_0;
        (if k < fs.len() {
            seq![out_delimiter(opt)] + join_with(
                fs.subrange(k, right_end(b, fs.len() as int) + 1),
                seq![out_delimiter(opt)],
            )
        } else {
            Seq::empty()
        }) + join_tail(opt, b) + entries_out(opt, fs, es.skip(i + 1))
    } else {
        entries_out(opt, fs, es.skip(i))
    }
}

/// Where the stream stands at the start of field `k`, entry `i` waiting:
/// the bounds before `i` are the ones over, and a filler waiting is
/// followed by a bound not yet begun.
pub open spec fn field_start_ok(es: Seq<BofView>, i: int, k: int) -> bool {
    &&& 0 <= i <= es.len()
    &&& forall|j: int| 0 <= j < es.len() && (#[trigger] es[j]) is Bound ==> (j < i <==> es[j]->Bound_0.r.value < k)
    &&& (i < es.len() && es[i] is Filler) ==> (i + 1 == es.len() || es[i + 1]->Bound_0.l.value >= k)
}

/// The state at the start of field `k` with entry `i` waiting.
pub open spec fn field_state(i: int, k: int) -> StreamState {
    StreamState { bof_idx: i as usize, curr_field: k as usize, in_field: false, skipping: false, empty_line: k == 0 }
}

/// Two fields or more joined: the first, the delimiter, the rest joined.
proof fn lemma_join_first(ts: Seq<Seq<u8>>, d: Seq<u8>)
    requires
        ts.len() >= 1,
    ensures
        ts.len() == 1 ==> join_with(ts, d) == ts[0],
        ts.len() >= 2 ==> join_with(ts, d) == ts[0] + d + join_with(ts.drop_first(), d),
{
}

/// A join of pieces without `x`, with a separator other than `x`, holds no `x`.
proof fn lemma_join_without(ts: Seq<Seq<u8>>, d: u8, x: u8)
    requires
        d != x,
        forall|j: int, i: int| 0 <= j < ts.len() && 0 <= i < ts[j].len() ==> #[trigger] ts[j][i] != x,
    ensures
        forall|i: int| 0 <= i < join_with(ts, seq![d]).len() ==> #[trigger] join_with(ts, seq![d])[i] != x,
    decreases ts.len(),
{
    if ts.len() >= 2 {
        let rest = ts.drop_first();
        assert forall|j: int, i: int| 0 <= j < rest.len() && 0 <= i < rest[j].len() implies #[trigger] rest[j][i]
            != x by {
            assert(rest[j] == ts[j + 1]);
        }
        lemma_join_without(rest, d, x);
        let t = join_with(ts, seq![d]);
        let a = ts[0];
        let r = join_with(rest, seq![d]);
        assert(t == a + seq![d] + r);
        assert forall|i: int| 0 <= i < t.len() implies #[trigger] t[i] != x by {
            if i < a.len() {
                assert(t[i] == a[i]);
                assert(ts[0][i] != x);
            } else if i == a.len() {
                assert(t[i] == d);
            } else {
                assert(t[i] == r[i - a.len() - 1]);
            }
        }
    } else if ts.len() == 1 {
        assert forall|i: int| 0 <= i < ts[0].len() implies #[trigger] ts[0][i] != x by {}
    }
}

/// Skipping the rest of a line prints nothing until its terminator.
proof fn lemma_feed_skipping(opt: StreamOpt, last: Side, st: StreamState, bytes: Seq<u8>)
    requires
        st.skipping,
        forall|i: int| 0 <= i < bytes.len() ==> #[trigger] bytes[i] != spec_eol_byte(opt.eol),
    ensures
        spec_feed(opt, last, st, bytes) == (Seq::<u8>::empty(), Ok::<StreamState, ErrorView>(st)),
    decreases bytes.len(),
{
    if bytes.len() > 0 {
        let pre = bytes.drop_last();
        assert forall|i: int| 0 <= i < pre.len() implies #[trigger] pre[i] != spec_eol_byte(opt.eol) by {
            assert(pre[i] == bytes[i]);
        }
        lemma_feed_skipping(opt, last, st, pre);
        assert(bytes.last() == bytes[bytes.len() - 1]);
        assert(Seq::<u8>::empty() + Seq::<u8>::empty() =~= Seq::<u8>::empty());
    }
}

/// A byte at the start of a field: the field is entered, then the byte is
/// processed inside it.
proof fn lemma_byte_after_enter(opt: StreamOpt, last: Side, st: StreamState, c: u8)
    requires
        !st.skipping,
        !st.in_field,
        !(c == spec_eol_byte(opt.eol) && st.empty_line),
    ensures
        spec_byte(opt, last, st, c).1 == spec_byte(opt, last, spec_enter(opt, st).1, c).1,
        spec_byte(opt, last, st, c).0 == spec_enter(opt, st).0 + spec_byte(opt, last, spec_enter(opt, st).1, c).0,
{
    let e = spec_enter(opt, st);
    let s1 = e.1;
    let eol = spec_eol_byte(opt.eol);
    assert(spec_enter(opt, s1) == (Seq::<u8>::empty(), s1));
    let f = st.curr_field as int;
    if c == eol || c == opt.delimiter {
        let fin = spec_finish(opt, s1);
        if c == eol || is_last_field(last, f) {
            let ff = spec_fillers_fallbacks(opt, line_end_from(opt, fin.1 as int, f));
            match ff.1 {
                Some(err) => {
                    assert(e.0 + fin.0 + ff.0 =~= e.0 + (Seq::<u8>::empty() + fin.0 + ff.0));
                },
                None => {
                    if c == eol {
                        assert(e.0 + fin.0 + ff.0 + seq![eol] =~= e.0 + (Seq::<u8>::empty() + fin.0 + ff.0 + seq![
                            eol,
                        ]));
                    } else {
                        assert(e.0 + fin.0 + ff.0 =~= e.0 + (Seq::<u8>::empty() + fin.0 + ff.0));
                    }
                },
            }
        } else {
            assert(e.0 + fin.0 =~= e.0 + (Seq::<u8>::empty() + fin.0));
        }
    } else {
        let t = if covers(opt, s1.bof_idx as int, f) {
            seq![c]
        } else {
            Seq::<u8>::empty()
        };
        assert(e.0 + t =~= e.0 + (Seq::<u8>::empty() + t));
    }
}

/// A field and the byte after it: the field is entered once, its bytes are
/// printed when a bound covers it, then the byte is processed.
proof fn lemma_feed_field_and_byte(opt: StreamOpt, last: Side, st: StreamState, seg: Seq<u8>, c: u8)
    requires
        !st.skipping,
        !st.in_field,
        forall|i: int| 0 <= i < seg.len() ==> #[trigger] seg[i] != spec_eol_byte(opt.eol) && seg[i] != opt.delimiter,
        !(seg.len() == 0 && c == spec_eol_byte(opt.eol) && st.empty_line),
    ensures
        ({
            let e = spec_enter(opt, st);
            let txt = if covers(opt, e.1.bof_idx as int, st.curr_field as int) {
                seg
            } else {
                Seq::empty()
            };
            let q = spec_byte(opt, last, e.1, c);
            spec_feed(opt, last, st, seg.push(c)) == (e.0 + txt + q.0, q.1)
        }),
{
    let e = spec_enter(opt, st);
    let txt = if covers(opt, e.1.bof_idx as int, st.curr_field as int) {
        seg
    } else {
        Seq::empty()
    };
    let q = spec_byte(opt, last, e.1, c);
    let all = seg.push(c);
    assert(all.drop_last() =~= seg);
    assert(all.last() == c);
    if seg.len() > 0 {
        crate::stream::lemma_feed_plain(opt, last, st, seg);
        assert(spec_feed(opt, last, st, seg) == (e.0 + txt, Ok::<StreamState, ErrorView>(e.1)));
        assert(spec_byte(opt, last, e.1, c) == q);
        assert(spec_feed(opt, last, st, all) == (e.0 + txt + q.0, q.1));
    } else {
        lemma_byte_after_enter(opt, last, st, c);
        assert(spec_feed(opt, last, st, seg) == (Seq::<u8>::empty(), Ok::<StreamState, ErrorView>(st)));
        let q0 = spec_byte(opt, last, st, c);
        assert(spec_feed(opt, last, st, all) == (Seq::<u8>::empty() + q0.0, q0.1));
        assert(txt =~= Seq::<u8>::empty());
        assert(Seq::<u8>::empty() + q0.0 =~= e.0 + txt + q.0);
    }
}

/// The entries from `i` on: entry `i`, then those after it.
proof fn lemma_entries_skip(opt: StreamOpt, fs: Seq<Seq<u8>>, es: Seq<BofView>, i: int)
    requires
        0 <= i < es.len(),
    ensures
        entries_out(opt, fs, es.skip(i)) == entry_out(opt, fs, es[i]) + entries_out(opt, fs, es.skip(i + 1)),
{
    assert(es.skip(i).drop_first() =~= es.skip(i + 1));
    assert(es.skip(i)[0] == es[i]);
}

/// The fields `a` to `r` joined: the first, then the delimiter and the rest.
proof fn lemma_join_range(fs: Seq<Seq<u8>>, a: int, r: int, d: Seq<u8>)
    requires
        0 <= a <= r < fs.len(),
    ensures
        a == r ==> join_with(fs.subrange(a, r + 1), d) == fs[a],
        a < r ==> join_with(fs.subrange(a, r + 1), d) == fs[a] + d + join_with(fs.subrange(a + 1, r + 1), d),
{
    let t = fs.subrange(a, r + 1);
    lemma_join_first(t, d);
    assert(t[0] == fs[a]);
    assert(t.drop_first() =~= fs.subrange(a + 1, r + 1));
}

/// What one field prints, and where the stream then stands: what was left
/// at the start of field `k` is what the field prints (entering it, its
/// bytes, ending it) followed by what is left at the start of the next one.
pub open spec fn field_step_ok(opt: StreamOpt, fs: Seq<Seq<u8>>, i: int, k: int) -> bool {
    let st = field_state(i, k);
    let e = spec_enter(opt, st);
    let txt = if covers(opt, e.1.bof_idx as int, k) {
        fs[k]
    } else {
        Seq::empty()
    };
    let fin = spec_finish(opt, e.1);
    &&& rest_out(opt, fs, i, k) == e.0 + txt + fin.0 + rest_out(opt, fs, fin.1 as int, k + 1)
    &&& field_start_ok(opt.bounds.list@, fin.1 as int, k + 1)
}

/// A field once every entry is passed.
#[verifier::rlimit(60)]
#[verifier::spinoff_prover]
proof fn lemma_step_past_entries(opt: StreamOpt, fs: Seq<Seq<u8>>, i: int, k: int)
    requires
        bounds_fit(opt.bounds.list@, fs.len() as int),
        opt.bounds.list@.len() < usize::MAX,
        fs.len() < usize::MAX,
        0 <= k < fs.len(),
        field_start_ok(opt.bounds.list@, i, k),
        i == opt.bounds.list@.len(),
    ensures
        field_step_ok(opt, fs, i, k),
{
    let es = opt.bounds.list@;
    let n = es.len() as int;
    let st = field_state(i, k);
    let e = spec_enter(opt, st);
    let fin = spec_finish(opt, e.1);
    let emp = Seq::<u8>::empty();
    assert(es.skip(n) =~= Seq::<BofView>::empty());
    assert(e.1.bof_idx == n);
    assert(!covers(opt, n, k));
    assert(e.0 =~= emp);
    assert(fin.1 == n);
    assert(rest_out(opt, fs, i, k) =~= emp + emp + fin.0 + rest_out(opt, fs, fin.1 as int, k + 1));
}

/// A field with a bound waiting.
#[verifier::rlimit(60)]
#[verifier::spinoff_prover]
proof fn lemma_step_bound(opt: StreamOpt, fs: Seq<Seq<u8>>, i: int, k: int)
    requires
        bounds_fit(opt.bounds.list@, fs.len() as int),
        opt.bounds.list@.len() < usize::MAX,
        fs.len() < usize::MAX,
        0 <= k < fs.len(),
        field_start_ok(opt.bounds.list@, i, k),
        i < opt.bounds.list@.len(),
        opt.bounds.list@[i] is Bound,
    ensures
        field_step_ok(opt, fs, i, k),
{
    let es = opt.bounds.list@;
    let n = fs.len() as int;
    let dd = seq![out_delimiter(opt)];
    let st = field_state(i, k);
    let e = spec_enter(opt, st);
    let fin = spec_finish(opt, e.1);
    let emp = Seq::<u8>::empty();
    let b = es[i]->Bound_0;
    let re = right_end(b, n);
    let e1 = entries_out(opt, fs, es.skip(i + 1));
    lemma_entries_skip(opt, fs, es, i);
    assert(b.r.value >= k);
    assert(b.l.value <= re < n);
    assert(e.1.bof_idx == i);
    if b.l.value > k {
        assert(!covers(opt, i, k));
        assert(e.0 =~= emp + emp);
        assert(fin.1 == i);
        assert forall|j: int| 0 <= j < es.len() && (#[trigger] es[j]) is Bound implies (j < i <==> es[j]->Bound_0.r.value
            < k + 1) by {
            if j > i {
                assert(b.r.value < es[j]->Bound_0.l.value);
            }
        }
        assert(rest_out(opt, fs, i, k + 1) == entries_out(opt, fs, es.skip(i)));
        assert(rest_out(opt, fs, i, k) =~= e.0 + emp + fin.0 + rest_out(opt, fs, fin.1 as int, k + 1));
    } else {
        assert(covers(opt, i, k));
        if b.l.value < k {
            assert(e.0 =~= emp + dd);
        } else {
            assert(e.0 =~= emp + emp);
        }
        if b.r.value == k {
            assert(re == k);
            lemma_join_range(fs, k, k, dd);
            assert(fin.1 == i + 1);
            assert(fin.0 == join_tail(opt, b));
            assert forall|j: int| 0 <= j < es.len() && (#[trigger] es[j]) is Bound implies (j < i + 1
                <==> es[j]->Bound_0.r.value < k + 1) by {
                if j > i {
                    assert(b.r.value < es[j]->Bound_0.l.value);
                }
            }
            if i + 1 < es.len() && es[i + 1] is Filler {
                if i + 2 < es.len() {
                    assert(es[i + 2] is Bound);
                    assert(b.r.value < es[i + 2]->Bound_0.l.value);
                }
            }
            if i + 1 < es.len() && es[i + 1] is Bound {
                assert(b.r.value < es[i + 1]->Bound_0.l.value);
            }
            assert(rest_out(opt, fs, i + 1, k + 1) == e1);
            assert(rest_out(opt, fs, i, k) =~= e.0 + fs[k] + fin.0 + rest_out(opt, fs, fin.1 as int, k + 1));
        } else {
            assert(fin.1 == i);
            assert(fin.0 =~= emp);
            assert forall|j: int| 0 <= j < es.len() && (#[trigger] es[j]) is Bound implies (j < i <==> es[j]->Bound_0.r.value
                < k + 1) by {
                if j > i {
                    assert(b.r.value < es[j]->Bound_0.l.value);
                }
            }
            lemma_join_range(fs, k, re, dd);
            if k < re {
                assert(rest_out(opt, fs, i, k + 1) == dd + join_with(fs.subrange(k + 1, re + 1), dd) + join_tail(
                    opt,
                    b,
                ) + e1);
            } else {
                assert(rest_out(opt, fs, i, k + 1) == emp + join_tail(opt, b) + e1);
            }
            assert(rest_out(opt, fs, i, k) =~= e.0 + fs[k] + fin.0 + rest_out(opt, fs, fin.1 as int, k + 1));
        }
    }
}

/// A field with a filler waiting: the filler, then the field as the entry
/// after it sees it.
#[verifier::rlimit(60)]
#[verifier::spinoff_prover]
proof fn lemma_step_filler(opt: StreamOpt, fs: Seq<Seq<u8>>, i: int, k: int)
    requires
        bounds_fit(opt.bounds.list@, fs.len() as int),
        opt.bounds.list@.len() < usize::MAX,
        fs.len() < usize::MAX,
        0 <= k < fs.len(),
        field_start_ok(opt.bounds.list@, i, k),
        i < opt.bounds.list@.len(),
        opt.bounds.list@[i] is Filler,
    ensures
        field_step_ok(opt, fs, i, k),
{
    let es = opt.bounds.list@;
    let n = es.len() as int;
    let st = field_state(i, k);
    let e = spec_enter(opt, st);
    let fin = spec_finish(opt, e.1);
    let emp = Seq::<u8>::empty();
    let f = es[i]->Filler_0;
    lemma_entries_skip(opt, fs, es, i);
    assert(rest_out(opt, fs, i, k) == f + entries_out(opt, fs, es.skip(i + 1)));
    assert(e.1.bof_idx == i + 1);
    if i + 1 == n {
        assert(es.skip(n) =~= Seq::<BofView>::empty());
        assert(!covers(opt, n, k));
        assert(e.0 =~= f + emp);
        assert(fin.1 == n);
        assert(rest_out(opt, fs, i, k) =~= e.0 + emp + fin.0 + rest_out(opt, fs, fin.1 as int, k + 1));
        assert forall|j: int| 0 <= j < es.len() && (#[trigger] es[j]) is Bound implies (j < n <==> es[j]->Bound_0.r.value
            < k + 1) by {
            assert(j != i);
            assert(j < i);
        }
    } else {
        assert(es[i + 1] is Bound);
        let b = es[i + 1]->Bound_0;
        assert(b.l.value >= k);
        assert forall|j: int| 0 <= j < es.len() && (#[trigger] es[j]) is Bound implies (j < i + 1
            <==> es[j]->Bound_0.r.value < k) by {
            if j > i + 1 {
                assert(b.r.value < es[j]->Bound_0.l.value);
            }
        }
        lemma_step_bound(opt, fs, i + 1, k);
        let st2 = field_state(i + 1, k);
        let e2 = spec_enter(opt, st2);
        assert(e2.1 == e.1);
        assert(e2.0 =~= emp + emp);
        assert(e.0 =~= f + emp);
        assert(rest_out(opt, fs, i + 1, k) == entries_out(opt, fs, es.skip(i + 1)));
        let txt = if covers(opt, e.1.bof_idx as int, k) {
            fs[k]
        } else {
            Seq::empty()
        };
        assert(rest_out(opt, fs, i, k) =~= e.0 + txt + fin.0 + rest_out(opt, fs, fin.1 as int, k + 1));
    }
}

/// Any field (see `field_step_ok`).
proof fn lemma_field_step(opt: StreamOpt, fs: Seq<Seq<u8>>, i: int, k: int)
    requires
        bounds_fit(opt.bounds.list@, fs.len() as int),
        opt.bounds.list@.len() < usize::MAX,
        fs.len() < usize::MAX,
        0 <= k < fs.len(),
        field_start_ok(opt.bounds.list@, i, k),
    ensures
        field_step_ok(opt, fs, i, k),
{
    if i == opt.bounds.list@.len() {
        lemma_step_past_entries(opt, fs, i, k);
    } else if opt.bounds.list@[i] is Filler {
        lemma_step_filler(opt, fs, i, k);
    } else {
        lemma_step_bound(opt, fs, i, k);
    }
}

/// Entries that are all fillers print as the end of a line prints them.
proof fn lemma_all_fillers_from(opt: StreamOpt, fs: Seq<Seq<u8>>, i: int, k: int)
    requires
        0 <= i <= opt.bounds.list@.len(),
        forall|j: int| i <= j < opt.bounds.list@.len() ==> (#[trigger] opt.bounds.list@[j]) is Filler,
    ensures
        spec_fillers_fallbacks(opt, i) == (entries_out(opt, fs, opt.bounds.list@.skip(i)), None::<ErrorView>),
        rest_out(opt, fs, i, k) == entries_out(opt, fs, opt.bounds.list@.skip(i)),
    decreases opt.bounds.list@.len() - i,
{
    let es = opt.bounds.list@;
    if i == es.len() {
        assert(es.skip(i) =~= Seq::<BofView>::empty());
    } else {
        assert(es[i] is Filler);
        lemma_all_fillers_from(opt, fs, i + 1, k);
        lemma_entries_skip(opt, fs, es, i);
    }
}

/// The rest of a line when field `k` is the last one a bound looks at and
/// more fields follow: the fields after it are skipped.
#[verifier::rlimit(40)]
#[verifier::spinoff_prover]
proof fn lemma_line_stop(opt: StreamOpt, last: Side, fs: Seq<Seq<u8>>, i: int, k: int)
    requires
        bounds_fit(opt.bounds.list@, fs.len() as int),
        opt.bounds.list@.len() < usize::MAX,
        fs.len() < usize::MAX,
        0 <= k < fs.len(),
        field_start_ok(opt.bounds.list@, i, k),
        opt.delimiter != spec_eol_byte(opt.eol),
        plain_fields(fs, opt.delimiter, spec_eol_byte(opt.eol)),
        opt.bounds.wf(),
        last == opt.bounds.list@[opt.bounds.last_bound_idx as int]->Bound_0.r,
        k == 0 ==> !(fs.len() == 1 && fs[0].len() == 0),
        k + 1 < fs.len(),
        is_last_field(last, k),
    ensures
        spec_feed(opt, last, field_state(i, k), line_of(fs.skip(k), opt.delimiter).push(spec_eol_byte(opt.eol))) == (
        rest_out(opt, fs, i, k) + seq![spec_eol_byte(opt.eol)], Ok::<StreamState, ErrorView>(line_start())),
{
    let es = opt.bounds.list@;
    let n = fs.len() as int;
    let eol = spec_eol_byte(opt.eol);
    let d = opt.delimiter;
    let st = field_state(i, k);
    let seg = fs[k];
    assert forall|x: int| 0 <= x < seg.len() implies #[trigger] seg[x] != eol && seg[x] != d by {
        assert(fs[k][x] != d && fs[k][x] != eol);
    }
    lemma_field_step(opt, fs, i, k);
    let e = spec_enter(opt, st);
    let txt = if covers(opt, e.1.bof_idx as int, k) {
        fs[k]
    } else {
        Seq::empty()
    };
    let fin = spec_finish(opt, e.1);
    let i2 = fin.1 as int;
    let tk = fs.skip(k);
    lemma_join_first(tk, seq![d]);
    assert(tk[0] == seg);
    assert(tk.drop_first() =~= fs.skip(k + 1));
    let lb = opt.bounds.last_bound_idx as int;
    assert(!crate::userboundslist::spec_has_negative_indices(es));
    assert(!(es[lb] matches BofView::Bound(b) && crate::userboundslist::bound_has_negative(b)));
    let rest = line_of(fs.skip(k + 1), d).push(eol);
    assert(line_of(tk, d).push(eol) =~= seg.push(d) + rest);
    lemma_feed_concat(opt, last, st, seg.push(d), rest);
    lemma_feed_field_and_byte(opt, last, st, seg, d);
    assert forall|j: int| i2 <= j < es.len() implies (#[trigger] es[j]) is Filler by {
        if es[j] is Bound {
            assert(es[j]->Bound_0.r.value >= k + 1);
            if j < lb {
                assert(es[j]->Bound_0.r.value < es[lb]->Bound_0.l.value);
            } else if j > lb {
                assert(!(es[j] is Bound));
            }
        }
    }
    lemma_all_fillers_from(opt, fs, i2, k + 1);
    assert(line_end_from(opt, i2, k) == i2);
    let ff = spec_fillers_fallbacks(opt, line_end_from(opt, i2, k));
    let s2 = StreamState { bof_idx: fin.1, skipping: true, ..e.1 };
    assert(spec_byte(opt, last, e.1, d) == (fin.0 + ff.0, Ok::<StreamState, ErrorView>(s2)));
    let tl = line_of(fs.skip(k + 1), d);
    let sk = fs.skip(k + 1);
    assert forall|j: int, x: int| 0 <= j < sk.len() && 0 <= x < sk[j].len() implies #[trigger] sk[j][x]
        != eol by {
        assert(sk[j] == fs[j + k + 1]);
        assert(fs[j + k + 1][x] != d && fs[j + k + 1][x] != eol);
    }
    lemma_join_without(sk, d, eol);
    lemma_feed_skipping(opt, last, s2, tl);
    assert(rest.drop_last() =~= tl);
    assert(rest.last() == eol);
    assert(spec_feed(opt, last, s2, rest) == (Seq::<u8>::empty() + seq![eol], Ok::<StreamState, ErrorView>(
        line_start(),
    )));
    assert(e.0 + txt + (fin.0 + ff.0) + (Seq::<u8>::empty() + seq![eol]) =~= rest_out(opt, fs, i, k)
        + seq![eol]);
}

/// The rest of a line from its last field.
#[verifier::rlimit(40)]
#[verifier::spinoff_prover]
proof fn lemma_line_end(opt: StreamOpt, last: Side, fs: Seq<Seq<u8>>, i: int, k: int)
    requires
        bounds_fit(opt.bounds.list@, fs.len() as int),
        opt.bounds.list@.len() < usize::MAX,
        fs.len() < usize::MAX,
        0 <= k < fs.len(),
        field_start_ok(opt.bounds.list@, i, k),
        opt.delimiter != spec_eol_byte(opt.eol),
        plain_fields(fs, opt.delimiter, spec_eol_byte(opt.eol)),
        opt.bounds.wf(),
        last == opt.bounds.list@[opt.bounds.last_bound_idx as int]->Bound_0.r,
        k == 0 ==> !(fs.len() == 1 && fs[0].len() == 0),
        k + 1 == fs.len(),
    ensures
        spec_feed(opt, last, field_state(i, k), line_of(fs.skip(k), opt.delimiter).push(spec_eol_byte(opt.eol))) == (
        rest_out(opt, fs, i, k) + seq![spec_eol_byte(opt.eol)], Ok::<StreamState, ErrorView>(line_start())),
{
    let es = opt.bounds.list@;
    let n = fs.len() as int;
    let eol = spec_eol_byte(opt.eol);
    let d = opt.delimiter;
    let st = field_state(i, k);
    let seg = fs[k];
    assert forall|x: int| 0 <= x < seg.len() implies #[trigger] seg[x] != eol && seg[x] != d by {
        assert(fs[k][x] != d && fs[k][x] != eol);
    }
    lemma_field_step(opt, fs, i, k);
    let e = spec_enter(opt, st);
    let txt = if covers(opt, e.1.bof_idx as int, k) {
        fs[k]
    } else {
        Seq::empty()
    };
    let fin = spec_finish(opt, e.1);
    let i2 = fin.1 as int;
    let tk = fs.skip(k);
    lemma_join_first(tk, seq![d]);
    assert(tk[0] == seg);
    assert(tk.drop_first() =~= fs.skip(k + 1));
    let lb = opt.bounds.last_bound_idx as int;
    assert(!crate::userboundslist::spec_has_negative_indices(es));
    assert(!(es[lb] matches BofView::Bound(b) && crate::userboundslist::bound_has_negative(b)));
    assert(line_of(tk, d) == seg);
    lemma_feed_field_and_byte(opt, last, st, seg, eol);
    lemma_rest_at_end(opt, fs, i2);
    let ff = spec_fillers_fallbacks(opt, line_end_from(opt, i2, k));
    assert(spec_byte(opt, last, e.1, eol) == (fin.0 + ff.0 + seq![eol], Ok::<StreamState, ErrorView>(
        line_start(),
    )));
    assert(e.0 + txt + (fin.0 + ff.0 + seq![eol]) =~= rest_out(opt, fs, i, k) + seq![eol]);
}

/// Once the line has no more fields, what is left is what the end of the
/// line prints: the fillers left, past a bound open to the right.
proof fn lemma_rest_at_end(opt: StreamOpt, fs: Seq<Seq<u8>>, i2: int)
    requires
        bounds_fit(opt.bounds.list@, fs.len() as int),
        field_start_ok(opt.bounds.list@, i2, fs.len() as int),
        fs.len() >= 1,
    ensures
        spec_fillers_fallbacks(opt, line_end_from(opt, i2, fs.len() - 1)) == (
            rest_out(opt, fs, i2, fs.len() as int),
            None::<ErrorView>,
        ),
{
    let es = opt.bounds.list@;
    let n = fs.len() as int;
    if i2 < es.len() && es[i2] is Bound {
        let b = es[i2]->Bound_0;
        assert(b.r.value >= n);
        assert(b.r.value == usize::MAX);
        assert(b.is_last);
        assert(covers(opt, i2, n - 1));
        assert(line_end_from(opt, i2, n - 1) == i2 + 1);
        assert forall|j: int| i2 + 1 <= j < es.len() implies (#[trigger] es[j]) is Filler by {
            if es[j] is Bound {
                assert(b.r.value < es[j]->Bound_0.l.value);
            }
        }
        lemma_all_fillers_from(opt, fs, i2 + 1, n);
        assert(rest_out(opt, fs, i2, n) =~= entries_out(opt, fs, es.skip(i2 + 1)));
    } else {
        assert(line_end_from(opt, i2, n - 1) == i2);
        assert forall|j: int| i2 <= j < es.len() implies (#[trigger] es[j]) is Filler by {
            if es[j] is Bound {
                assert(j > i2);
                assert(es[j]->Bound_0.r.value >= n);
                assert(es[i2] is Filler);
                if i2 + 1 == j {
                    assert(es[j]->Bound_0.l.value >= n);
                } else {
                    assert(es[i2 + 1] is Bound);
                    assert(es[i2 + 1]->Bound_0.r.value >= n);
                    assert(es[i2 + 1]->Bound_0.r.value == usize::MAX);
                    assert(es[i2 + 1]->Bound_0.r.value < es[j]->Bound_0.l.value);
                }
            }
        }
        lemma_all_fillers_from(opt, fs, i2, n);
    }
}

/// A field that more fields follow, the bounds looking further: the rest
/// of the line is what the field prints, then the rest from the next field.
#[verifier::rlimit(40)]
#[verifier::spinoff_prover]
proof fn lemma_line_next(opt: StreamOpt, last: Side, fs: Seq<Seq<u8>>, i: int, k: int) -> (i2: int)
    requires
        bounds_fit(opt.bounds.list@, fs.len() as int),
        opt.bounds.list@.len() < usize::MAX,
        fs.len() < usize::MAX,
        0 <= k < fs.len(),
        field_start_ok(opt.bounds.list@, i, k),
        opt.delimiter != spec_eol_byte(opt.eol),
        plain_fields(fs, opt.delimiter, spec_eol_byte(opt.eol)),
        opt.bounds.wf(),
        last == opt.bounds.list@[opt.bounds.last_bound_idx as int]->Bound_0.r,
        k == 0 ==> !(fs.len() == 1 && fs[0].len() == 0),
        k + 1 < fs.len(),
        !is_last_field(last, k),
    ensures
        field_start_ok(opt.bounds.list@, i2, k + 1),
        ({
            let eol = spec_eol_byte(opt.eol);
            let whole = line_of(fs.skip(k), opt.delimiter).push(eol);
            let rest = line_of(fs.skip(k + 1), opt.delimiter).push(eol);
            let next = spec_feed(opt, last, field_state(i2, k + 1), rest);
            exists|pre: Seq<u8>|
                rest_out(opt, fs, i, k) == pre + rest_out(opt, fs, i2, k + 1) && spec_feed(
                    opt,
                    last,
                    field_state(i, k),
                    whole,
                ) == (pre + next.0, next.1)
        }),
{
    let eol = spec_eol_byte(opt.eol);
    let d = opt.delimiter;
    let st = field_state(i, k);
    let seg = fs[k];
    assert forall|x: int| 0 <= x < seg.len() implies #[trigger] seg[x] != eol && seg[x] != d by {
        assert(fs[k][x] != d && fs[k][x] != eol);
    }
    lemma_field_step(opt, fs, i, k);
    let e = spec_enter(opt, st);
    let txt = if covers(opt, e.1.bof_idx as int, k) {
        fs[k]
    } else {
        Seq::empty()
    };
    let fin = spec_finish(opt, e.1);
    let i2 = fin.1 as int;
    let tk = fs.skip(k);
    lemma_join_first(tk, seq![d]);
    assert(tk[0] == seg);
    assert(tk.drop_first() =~= fs.skip(k + 1));
    let rest = line_of(fs.skip(k + 1), d).push(eol);
    assert(line_of(tk, d).push(eol) =~= seg.push(d) + rest);
    lemma_feed_concat(opt, last, st, seg.push(d), rest);
    lemma_feed_field_and_byte(opt, last, st, seg, d);
    assert(spec_byte(opt, last, e.1, d) == (fin.0, Ok::<StreamState, ErrorView>(field_state(i2, k + 1))));
    let pre = e.0 + txt + fin.0;
    let next = spec_feed(opt, last, field_state(i2, k + 1), rest);
    assert(spec_feed(opt, last, st, line_of(tk, d).push(eol)) == (pre + next.0, next.1));
    assert(rest_out(opt, fs, i, k) == pre + rest_out(opt, fs, i2, k + 1));
    i2
}

/// The rest of a line from the start of field `k`, entry `i` waiting: it
/// prints what is left, then the line terminator, and the next line starts
/// afresh.
proof fn lemma_line_from(opt: StreamOpt, last: Side, fs: Seq<Seq<u8>>, i: int, k: int)
    requires
        bounds_fit(opt.bounds.list@, fs.len() as int),
        opt.bounds.list@.len() < usize::MAX,
        fs.len() < usize::MAX,
        0 <= k < fs.len(),
        field_start_ok(opt.bounds.list@, i, k),
        opt.delimiter != spec_eol_byte(opt.eol),
        plain_fields(fs, opt.delimiter, spec_eol_byte(opt.eol)),
        opt.bounds.wf(),
        last == opt.bounds.list@[opt.bounds.last_bound_idx as int]->Bound_0.r,
        k == 0 ==> !(fs.len() == 1 && fs[0].len() == 0),
    ensures
        spec_feed(opt, last, field_state(i, k), line_of(fs.skip(k), opt.delimiter).push(spec_eol_byte(opt.eol))) == (
        rest_out(opt, fs, i, k) + seq![spec_eol_byte(opt.eol)], Ok::<StreamState, ErrorView>(line_start())),
    decreases fs.len() - k,
{
    if k + 1 == fs.len() {
        lemma_line_end(opt, last, fs, i, k);
    } else if is_last_field(last, k) {
        lemma_line_stop(opt, last, fs, i, k);
    } else {
        let i2 = lemma_line_next(opt, last, fs, i, k);
        lemma_line_from(opt, last, fs, i2, k + 1);
        let eol = spec_eol_byte(opt.eol);
        let rest = line_of(fs.skip(k + 1), opt.delimiter).push(eol);
        let next = spec_feed(opt, last, field_state(i2, k + 1), rest);
        let pre = choose|pre: Seq<u8>|
            rest_out(opt, fs, i, k) == pre + rest_out(opt, fs, i2, k + 1) && spec_feed(
                opt,
                last,
                field_state(i, k),
                line_of(fs.skip(k), opt.delimiter).push(eol),
            ) == (pre + next.0, next.1);
        assert(pre + (rest_out(opt, fs, i2, k + 1) + seq![eol]) =~= rest_out(opt, fs, i, k) + seq![eol]);
    }
}

/// The fields are the ones that splitting the line on the delimiter gives.
proof fn lemma_fields_of_line(fs: Seq<Seq<u8>>, d: u8, eol: u8)
    requires
        fs.len() > 0,
        plain_fields(fs, d, eol),
    ensures
        split_on(line_of(fs, d), seq![d]) == fs,
{
    let dd = seq![d];
    assert forall|k: int| 0 <= k < fs.len() - 1 implies ends_at_delimiter(#[trigger] fs[k], dd) by {
        assert forall|i: int| 0 <= i < fs[k].len() implies !occurs_at(fs[k] + dd, dd, i) by {
            if occurs_at(fs[k] + dd, dd, i) {
                assert((fs[k] + dd).subrange(i, i + 1)[0] == (fs[k] + dd)[i]);
                assert(fs[k][i] != d);
            }
        }
    }
    let t = fs.last();
    assert forall|i: int| 0 <= i implies !occurs_at(t, dd, i) by {
        if occurs_at(t, dd, i) {
            assert(t.subrange(i, i + 1)[0] == t[i]);
            assert(fs[fs.len() - 1][i] != d);
        }
    }
    lemma_split_join(fs, dd);
}

/// A line made of fields (the ones that splitting it on the delimiter
/// gives), within which every bound lies, prints each entry of the bounds
/// in order (a filler as it is, a bound as its fields joined by the output
/// delimiter, up to the last field for a bound open to the right, the
/// delimiter after it when the parts are joined), then the line terminator;
/// in chunks of any size of at least one byte. Fixed memory changes how the
/// input is read, not what each field gives. Left out: the empty line
/// (printed as it is), a delimiter equal to the line terminator, and bounds
/// that share a field (the stream passes each field once).
pub proof fn law_stream_prints_the_fields_of_a_line(opt: StreamOpt, fs: Seq<Seq<u8>>, cap: int)
    requires
        opt.bounds.wf(),
        bounds_fit(opt.bounds.list@, fs.len() as int),
        plain_fields(fs, opt.delimiter, spec_eol_byte(opt.eol)),
        opt.delimiter != spec_eol_byte(opt.eol),
        line_of(fs, opt.delimiter).len() > 0,
        fs.len() < usize::MAX,
        opt.bounds.list@.len() < usize::MAX,
        cap >= 1,
    ensures
        ({
            let last = opt.bounds.list@[opt.bounds.last_bound_idx as int]->Bound_0.r;
            let input = line_of(fs, opt.delimiter).push(spec_eol_byte(opt.eol));
            let out = entries_out(opt, fs, opt.bounds.list@) + seq![spec_eol_byte(opt.eol)];
            &&& split_on(line_of(fs, opt.delimiter), seq![opt.delimiter]) == fs
            &&& spec_feed(opt, last, line_start(), input) == (out, Ok::<StreamState, ErrorView>(line_start()))
            &&& spec_cut_bytes_stream(input, cap, opt, last) == (out, None::<ErrorView>)
        }),
{
    let es = opt.bounds.list@;
    let last = es[opt.bounds.last_bound_idx as int]->Bound_0.r;
    let d = opt.delimiter;
    let eol = spec_eol_byte(opt.eol);
    let input = line_of(fs, d).push(eol);
    assert(fs.len() >= 1);
    lemma_fields_of_line(fs, d, eol);
    if fs.len() == 1 {
        assert(line_of(fs, d) == fs[0]);
    }
    assert(field_state(0, 0) == line_start());
    assert(fs.skip(0) =~= fs);
    assert(es.skip(0) =~= es);
    lemma_line_from(opt, last, fs, 0, 0);
    assert(rest_out(opt, fs, 0, 0) == entries_out(opt, fs, es));
    crate::stream::law_chunk_size_does_not_change_the_stream(input, cap, cap, opt, last);
    let out = entries_out(opt, fs, es) + seq![eol];
    assert(out + Seq::<u8>::empty() =~= out);
}

/// The lines made of the fields of `lines`, each with its terminator.
pub open spec fn lines_input(lines: Seq<Seq<Seq<u8>>>, d: u8, eol: u8) -> Seq<u8>
    decreases lines.len(),
{
    if lines.len() == 0 {
        Seq::empty()
    } else {
        lines_input(lines.drop_last(), d, eol) + line_of(lines.last(), d).push(eol)
    }
}

/// What each line prints (see `entries_out`), each with its terminator.
pub open spec fn lines_output(opt: StreamOpt, lines: Seq<Seq<Seq<u8>>>) -> Seq<u8>
    decreases lines.len(),
{
    if lines.len() == 0 {
        Seq::empty()
    } else {
        lines_output(opt, lines.drop_last()) + entries_out(opt, lines.last(), opt.bounds.list@) + seq![
            spec_eol_byte(opt.eol),
        ]
    }
}

/// Each line is one the stream prints field by field (see
/// `law_stream_prints_the_fields_of_a_line`).
pub open spec fn lines_fit(opt: StreamOpt, lines: Seq<Seq<Seq<u8>>>) -> bool {
    forall|j: int|
        0 <= j < lines.len() ==> {
            &&& bounds_fit(opt.bounds.list@, (#[trigger] lines[j]).len() as int)
            &&& plain_fields(lines[j], opt.delimiter, spec_eol_byte(opt.eol))
            &&& line_of(lines[j], opt.delimiter).len() > 0
            &&& lines[j].len() < usize::MAX
        }
}

/// Lines made of fields, within which every bound lies, print line after
/// line what each prints on its own (see
/// `law_stream_prints_the_fields_of_a_line`), in chunks of any size of at
/// least one byte.
pub proof fn law_stream_prints_the_fields_of_each_line(opt: StreamOpt, lines: Seq<Seq<Seq<u8>>>, cap: int)
    requires
        opt.bounds.wf(),
        lines_fit(opt, lines),
        opt.delimiter != spec_eol_byte(opt.eol),
        opt.bounds.list@.len() < usize::MAX,
        cap >= 1,
    ensures
        ({
            let last = opt.bounds.list@[opt.bounds.last_bound_idx as int]->Bound_0.r;
            let input = lines_input(lines, opt.delimiter, spec_eol_byte(opt.eol));
            &&& spec_feed(opt, last, line_start(), input) == (lines_output(opt, lines), Ok::<StreamState, ErrorView>(
                line_start(),
            ))
            &&& spec_cut_bytes_stream(input, cap, opt, last) == (lines_output(opt, lines), None::<ErrorView>)
        }),
    decreases lines.len(),
{
    let last = opt.bounds.list@[opt.bounds.last_bound_idx as int]->Bound_0.r;
    let d = opt.delimiter;
    let eol = spec_eol_byte(opt.eol);
    let input = lines_input(lines, d, eol);
    if lines.len() > 0 {
        let init = lines.drop_last();
        assert forall|j: int| 0 <= j < init.len() implies {
            &&& bounds_fit(opt.bounds.list@, (#[trigger] init[j]).len() as int)
            &&& plain_fields(init[j], opt.delimiter, spec_eol_byte(opt.eol))
            &&& line_of(init[j], opt.delimiter).len() > 0
            &&& init[j].len() < usize::MAX
        } by {
            assert(init[j] == lines[j]);
        }
        law_stream_prints_the_fields_of_each_line(opt, init, cap);
        let fs = lines.last();
        assert(fs == lines[lines.len() - 1]);
        law_stream_prints_the_fields_of_a_line(opt, fs, cap);
        lemma_feed_concat(opt, last, line_start(), lines_input(init, d, eol), line_of(fs, d).push(eol));
        assert(lines_output(opt, init) + (entries_out(opt, fs, opt.bounds.list@) + seq![eol]) =~= lines_output(
            opt,
            lines,
        ));
    } else {
        assert(input =~= Seq::<u8>::empty());
    }
    crate::stream::law_chunk_size_does_not_change_the_stream(input, cap, cap, opt, last);
    assert(lines_output(opt, lines) + Seq::<u8>::empty() =~= lines_output(opt, lines));
}

} // verus!
