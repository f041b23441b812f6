use crate::search::{bytes_replace, spec_replace};
use crate::side::{res_view, ErrorView, TucError};
use crate::text::{find_byte, first_index_of, str_trim, trim_end_ws, trim_start_ws};
use crate::userbounds::{spec_user_bounds_from, BofView, BoundOrFiller, UserBounds};
use crate::userboundslist::{bofs_view, bounds_only, mark_last, spec_last_interesting_field, UserBoundsList};
use crate::userbounds::UserBoundsView;
use vstd::prelude::*;
use vstd::string::StringSliceAdditionalSpecFns;

verus! {

/// `s` cut at every `c`.
#[verifier::opaque]
pub open spec fn split_bytes(s: Seq<u8>, c: u8) -> Seq<Seq<u8>>
    decreases s.len(),
{
    match first_index_of(s, c) {
        None => seq![s],
        Some(i) => if 0 <= i < s.len() {
            seq![s.subrange(0, i)] + split_bytes(s.subrange(i + 1, s.len() as int), c)
        } else {
            seq![s]
        },
    }
}

/// Prepend items to a result that may have failed.
pub open spec fn prepend_ok(p: Seq<BofView>, r: Result<Seq<BofView>, ErrorView>) -> Result<
    Seq<BofView>,
    ErrorView,
> {
    match r {
        Ok(v) => Ok(p + v),
        Err(e) => Err(e),
    }
}

/// Every piece parsed as a bound, in order; the first failure wins.
#[verifier::opaque]
pub open spec fn parse_pieces(pieces: Seq<Seq<u8>>) -> Result<Seq<BofView>, ErrorView>
    decreases pieces.len(),
{
    if pieces.len() == 0 {
        Ok(Seq::empty())
    } else {
        match spec_user_bounds_from(pieces[0]) {
            Err(e) => Err(e),
            Ok(b) => prepend_ok(seq![BofView::Bound(b)], parse_pieces(pieces.drop_first())),
        }
    }
}

/// The text of a filler: `{{` and `}}` stand for `{` and `}`, a written
/// `\n` or `\t` for a newline or a tab.
pub open spec fn unescape(t: Seq<u8>) -> Seq<u8> {
    spec_replace(
        spec_replace(
            spec_replace(spec_replace(t, seq![123u8, 123u8], seq![123u8]), seq![125u8, 125u8], seq![125u8]),
            seq![92u8, 110u8],
            seq![10u8],
        ),
        seq![92u8, 116u8],
        seq![9u8],
    )
}

/// The next byte, or `x` past the end.
pub open spec fn next_byte(s: Seq<u8>, i: int) -> u8 {
    if i + 1 < s.len() {
        s[i + 1]
    } else {
        120u8
    }
}

/// Read a format string from position `i` on: text outside braces is kept
/// as fillers, `{..}` holds comma separated bounds, doubled braces are
/// escapes.
#[verifier::opaque]
pub open spec fn fmt_scan(s: Seq<u8>, i: int, inside: bool, part_start: int) -> Result<
    Seq<BofView>,
    ErrorView,
>
    decreases s.len() - i,
{
    if i >= s.len() || i < 0 {
        if inside {
            Err(ErrorView::MissingClosingParenthesis)
        } else if s.len() > part_start {
            Ok(seq![BofView::Filler(unescape(s.subrange(part_start, s.len() as int)))])
        } else {
            Ok(Seq::empty())
        }
    } else {
        let w0 = s[i];
        let w1 = next_byte(s, i);
        if w0 == w1 && (w0 == 123u8 || w0 == 125u8) {
            fmt_scan(s, i + 2, inside, part_start)
        } else if w0 == 125u8 && !inside {
            Err(ErrorView::MissingOpeningParenthesis)
        } else if w0 == 123u8 {
            let prefix = if i > part_start {
                seq![BofView::Filler(unescape(s.subrange(part_start, i)))]
            } else {
                Seq::empty()
            };
            prepend_ok(prefix, fmt_scan(s, i + 1, true, i + 1))
        } else if w0 == 125u8 {
            match parse_pieces(split_bytes(s.subrange(part_start, i), 44u8)) {
                Err(e) => Err(e),
                Ok(bs) => prepend_ok(bs, fmt_scan(s, i + 1, false, i + 1)),
            }
        } else {
            fmt_scan(s, i + 1, inside, part_start)
        }
    }
}

/// `s` holds a brace.
pub open spec fn has_brace(s: Seq<u8>) -> bool {
    exists|i: int| 0 <= i < s.len() && (s[i] == 123u8 || s[i] == 125u8)
}

/// A list of bounds as written by the user: comma separated bounds, or a
/// format string when a brace is present (bounds inside `{}`, text around).
pub open spec fn spec_parse_bounds_list(s: Seq<u8>) -> Result<Seq<BofView>, ErrorView> {
    if s.len() == 0 {
        Ok(Seq::empty())
    } else if has_brace(s) {
        fmt_scan(s, 0, false, 0)
    } else {
        parse_pieces(split_bytes(s, 44u8))
    }
}

pub open spec fn bofs_res_view(r: Result<Vec<BoundOrFiller>, TucError>) -> Result<Seq<BofView>, ErrorView> {
    match r {
        Ok(v) => Ok(bofs_view(v@)),
        Err(e) => Err(e@),
    }
}

/// The text of a filler, with its escapes resolved.
pub fn unescape_filler(t: &[u8]) -> (r: Vec<u8>)
    ensures
        r@ == unescape(t@),
{
    let open2: [u8; 2] = [123u8, 123u8];
    let open1: [u8; 1] = [123u8];
    let close2: [u8; 2] = [125u8, 125u8];
    let close1: [u8; 1] = [125u8];
    let esc_n: [u8; 2] = [92u8, 110u8];
    let newline: [u8; 1] = [10u8];
    let esc_t: [u8; 2] = [92u8, 116u8];
    let tab: [u8; 1] = [9u8];
    proof {
        assert(open2@ =~= seq![123u8, 123u8]);
        assert(open1@ =~= seq![123u8]);
        assert(close2@ =~= seq![125u8, 125u8]);
        assert(close1@ =~= seq![125u8]);
        assert(esc_n@ =~= seq![92u8, 110u8]);
        assert(newline@ =~= seq![10u8]);
        assert(esc_t@ =~= seq![92u8, 116u8]);
        assert(tab@ =~= seq![9u8]);
    }
    let a = bytes_replace(t, open2.as_slice(), open1.as_slice());
    let b = bytes_replace(a.as_slice(), close2.as_slice(), close1.as_slice());
    let c = bytes_replace(b.as_slice(), esc_n.as_slice(), newline.as_slice());
    let d = bytes_replace(c.as_slice(), esc_t.as_slice(), tab.as_slice());
    d
}

proof fn lemma_prepend_assoc(a: Seq<BofView>, b: Seq<BofView>, r: Result<Seq<BofView>, ErrorView>)
    ensures
        prepend_ok(a, prepend_ok(b, r)) == prepend_ok(a + b, r),
{
    match r {
        Ok(v) => {
            assert(a + (b + v) =~= (a + b) + v);
        },
        Err(e) => {},
    }
}

proof fn lemma_bofs_view_push(v: Seq<BoundOrFiller>, x: BoundOrFiller)
    ensures
        bofs_view(v.push(x)) == bofs_view(v).push(x@),
{
    assert(bofs_view(v.push(x)) =~= bofs_view(v).push(x@));
}

/// One step of `parse_pieces` over `split_bytes`: the piece before the first
/// comma is parsed, then the rest.
proof fn lemma_parse_split_some(rest: Seq<u8>, i: int)
    requires
        first_index_of(rest, 44u8) == Some(i),
        0 <= i < rest.len(),
    ensures
        parse_pieces(split_bytes(rest, 44u8)) == match spec_user_bounds_from(rest.subrange(0, i)) {
            Err(e) => Err(e),
            Ok(b) => prepend_ok(
                seq![BofView::Bound(b)],
                parse_pieces(split_bytes(rest.subrange(i + 1, rest.len() as int), 44u8)),
            ),
        },
{
    reveal(split_bytes);
    reveal(parse_pieces);
    let sp = split_bytes(rest, 44u8);
    assert(sp == seq![rest.subrange(0, i)] + split_bytes(rest.subrange(i + 1, rest.len() as int), 44u8));
    assert(sp[0] == rest.subrange(0, i));
    assert(sp.drop_first() =~= split_bytes(rest.subrange(i + 1, rest.len() as int), 44u8));
}

/// The last piece of `split_bytes`: no comma left.
proof fn lemma_parse_split_none(rest: Seq<u8>)
    requires
        first_index_of(rest, 44u8) is None,
    ensures
        parse_pieces(split_bytes(rest, 44u8)) == match spec_user_bounds_from(rest) {
            Err(e) => Err(e),
            Ok(b) => Ok::<Seq<BofView>, ErrorView>(seq![BofView::Bound(b)]),
        },
{
    reveal(split_bytes);
    reveal(parse_pieces);
    let sp = split_bytes(rest, 44u8);
    assert(sp == seq![rest]);
    assert(sp.drop_first() =~= Seq::<Seq<u8>>::empty());
    assert(parse_pieces(sp.drop_first()) == Ok::<Seq<BofView>, ErrorView>(Seq::empty()));
    match spec_user_bounds_from(rest) {
        Err(e) => {},
        Ok(b) => {
            assert(seq![BofView::Bound(b)] + Seq::<BofView>::empty() =~= seq![BofView::Bound(b)]);
        },
    }
}

/// The loop step of `parse_comma_separated`: the piece before the first
/// comma of `s[pos..]` is parsed, the rest starts after that comma.
proof fn lemma_comma_step(s: Seq<u8>, pos: int, i: int, before: Seq<BofView>)
    requires
        0 <= pos <= s.len(),
        first_index_of(s.subrange(pos, s.len() as int), 44u8) == Some(i),
        0 <= i < s.len() - pos,
        parse_pieces(split_bytes(s, 44u8)) == prepend_ok(
            before,
            parse_pieces(split_bytes(s.subrange(pos, s.len() as int), 44u8)),
        ),
    ensures
        match spec_user_bounds_from(s.subrange(pos, s.len() as int).subrange(0, i)) {
            Err(e) => parse_pieces(split_bytes(s, 44u8)) == Err::<Seq<BofView>, ErrorView>(e),
            Ok(b) => parse_pieces(split_bytes(s, 44u8)) == prepend_ok(
                before.push(BofView::Bound(b)),
                parse_pieces(split_bytes(s.subrange(pos + i + 1, s.len() as int), 44u8)),
            ),
        },
{
    let rest = s.subrange(pos, s.len() as int);
    lemma_parse_split_some(rest, i);
    let rest_after = rest.subrange(i + 1, rest.len() as int);
    assert(rest_after =~= s.subrange(pos + i + 1, s.len() as int));
    match spec_user_bounds_from(rest.subrange(0, i)) {
        Err(e) => {},
        Ok(b) => {
            lemma_prepend_assoc(before, seq![BofView::Bound(b)], parse_pieces(split_bytes(rest_after, 44u8)));
            assert(before + seq![BofView::Bound(b)] =~= before.push(BofView::Bound(b)));
        },
    }
}

/// Parse comma separated bounds (no format string).
#[verifier::rlimit(60)]
fn parse_comma_separated(s: &[u8]) -> (r: Result<Vec<BoundOrFiller>, TucError>)
    ensures
        bofs_res_view(r) == parse_pieces(split_bytes(s@, 44u8)),
{
    let mut out: Vec<BoundOrFiller> = Vec::new();
    let mut pos: usize = 0;
    let len = s.len();
    proof {
        assert(s@.subrange(0, len as int) =~= s@);
        assert(bofs_view(out@) =~= Seq::<BofView>::empty());
        match parse_pieces(split_bytes(s@, 44u8)) {
            Ok(v) => {
                assert(Seq::<BofView>::empty() + v =~= v);
            },
            Err(_) => {},
        }
    }
    loop
        invariant
            pos <= len,
            len == s@.len(),
            parse_pieces(split_bytes(s@, 44u8)) == prepend_ok(
                bofs_view(out@),
                parse_pieces(split_bytes(s@.subrange(pos as int, len as int), 44u8)),
            ),
        decreases len - pos,
    {
        let rest = &s[pos..len];
        match find_byte(rest, 44u8) {
            Some(i) => {
                match UserBounds::from_bytes(&rest[0..i]) {
                    Err(e) => {
                        proof {
                            lemma_comma_step(s@, pos as int, i as int, bofs_view(out@));
                        }
                        return Err(e);
                    },
                    Ok(b) => {
                        let ghost before = out@;
                        let item = BoundOrFiller::Bound(b);
                        proof {
                            lemma_comma_step(s@, pos as int, i as int, bofs_view(before));
                            lemma_bofs_view_push(before, item);
                        }
                        out.push(item);
                        pos = pos + i + 1;
                    },
                }
            },
            None => {
                proof {
                    lemma_parse_split_none(rest@);
                }
                match UserBounds::from_bytes(rest) {
                    Err(e) => {
                        return Err(e);
                    },
                    Ok(b) => {
                        let ghost before = out@;
                        let item = BoundOrFiller::Bound(b);
                        proof {
                            lemma_bofs_view_push(before, item);
                            assert(bofs_view(before) + seq![item@] =~= bofs_view(before).push(item@));
                        }
                        out.push(item);
                        return Ok(out);
                    },
                }
            },
        }
    }
}

proof fn lemma_bofs_view_append(a: Seq<BoundOrFiller>, b: Seq<BoundOrFiller>)
    ensures
        bofs_view(a + b) == bofs_view(a) + bofs_view(b),
{
    assert(bofs_view(a + b) =~= bofs_view(a) + bofs_view(b));
}

/// Whether `s` holds a brace.
fn find_brace(s: &[u8]) -> (r: bool)
    ensures
        r == has_brace(s@),
{
    let mut i: usize = 0;
    while i < s.len()
        invariant
            i <= s@.len(),
            forall|j: int| 0 <= j < i ==> !(s@[j] == 123u8 || s@[j] == 125u8),
        decreases s.len() - i,
    {
        if s[i] == 123u8 || s[i] == 125u8 {
            return true;
        }
        i = i + 1;
    }
    false
}

/// Read a format string: fillers outside braces, bounds inside.
#[verifier::rlimit(60)]
fn parse_format_string(s: &[u8]) -> (r: Result<Vec<BoundOrFiller>, TucError>)
    ensures
        bofs_res_view(r) == fmt_scan(s@, 0, false, 0),
{
    let len = s.len();
    let mut out: Vec<BoundOrFiller> = Vec::new();
    let mut i: usize = 0;
    let mut inside = false;
    let mut part_start: usize = 0;
    proof {
        assert(bofs_view(out@) =~= Seq::<BofView>::empty());
        match fmt_scan(s@, 0, false, 0) {
            Ok(v) => {
                assert(Seq::<BofView>::empty() + v =~= v);
            },
            Err(_) => {},
        }
    }
    while i < len
        invariant
            len == s@.len(),
            i <= len,
            part_start <= i,
            fmt_scan(s@, 0, false, 0) == prepend_ok(bofs_view(out@), fmt_scan(s@, i as int, inside, part_start as int)),
        decreases len - i,
    {
        let w0 = s[i];
        let w1: u8 = if i + 1 < len { s[i + 1] } else { 120u8 };
        let ghost before = bofs_view(out@);
        proof {
            assert(w1 == next_byte(s@, i as int));
            reveal_with_fuel(fmt_scan, 1);
        }
        if w0 == w1 && (w0 == 123u8 || w0 == 125u8) {
            i = i + 2;
        } else if w0 == 125u8 && !inside {
            return Err(TucError::MissingOpeningParenthesis);
        } else if w0 == 123u8 {
            if i > part_start {
                let t = unescape_filler(&s[part_start..i]);
                let item = BoundOrFiller::Filler(t);
                proof {
                    lemma_bofs_view_push(out@, item);
                    lemma_prepend_assoc(before, seq![item@], fmt_scan(s@, i + 1, true, i + 1));
                    assert(before + seq![item@] =~= before.push(item@));
                }
                out.push(item);
            } else {
                proof {
                    match fmt_scan(s@, i + 1, true, i + 1) {
                        Ok(v) => {
                            assert(Seq::<BofView>::empty() + v =~= v);
                        },
                        Err(_) => {},
                    }
                }
            }
            inside = true;
            i = i + 1;
            part_start = i;
        } else if w0 == 125u8 {
            match parse_comma_separated(&s[part_start..i]) {
                Err(e) => {
                    return Err(e);
                },
                Ok(v) => {
                    let mut v = v;
                    let ghost vv = v@;
                    let ghost old_out = out@;
                    out.append(&mut v);
                    proof {
                        lemma_bofs_view_append(old_out, vv);
                        lemma_prepend_assoc(before, bofs_view(vv), fmt_scan(s@, i + 1, false, i + 1));
                    }
                },
            }
            inside = false;
            i = i + 1;
            part_start = i;
        } else {
            i = i + 1;
        }
    }
    proof {
        reveal_with_fuel(fmt_scan, 1);
    }
    if inside {
        return Err(TucError::MissingClosingParenthesis);
    }
    if len > part_start {
        let t = unescape_filler(&s[part_start..len]);
        let item = BoundOrFiller::Filler(t);
        let ghost before = bofs_view(out@);
        proof {
            lemma_bofs_view_push(out@, item);
            assert(before + seq![item@] =~= before.push(item@));
        }
        out.push(item);
    } else {
        proof {
            assert(bofs_view(out@) + Seq::<BofView>::empty() =~= bofs_view(out@));
        }
    }
    Ok(out)
}

/// Parse a list of bounds as written by the user. It can hold formatting
/// elements or not.
///
/// Valid bounds are e.g. 1 / -1 / 1:3 / :3 / 1: / 1,4 .
/// If `{` or `}` is present, the text is a format string: everything inside
/// `{}` is a list of bounds, the rest is text to print around the fields,
/// e.g. "Hello {1}, found {1:3} and {2,4}".
pub fn parse_bounds_list(s: &str) -> (r: Result<Vec<BoundOrFiller>, TucError>)
    ensures
        bofs_res_view(r) == spec_parse_bounds_list(s.spec_bytes()),
{
    let b = s.as_bytes();
    if b.len() == 0 {
        let v: Vec<BoundOrFiller> = Vec::new();
        proof {
            assert(bofs_view(v@) =~= Seq::<BofView>::empty());
        }
        return Ok(v);
    }
    if find_brace(b) {
        parse_format_string(b)
    } else {
        parse_comma_separated(b)
    }
}

/// Whether a list holds at least one bound.
pub open spec fn has_bound(s: Seq<BofView>) -> bool {
    exists|i: int| 0 <= i < s.len() && #[trigger] s[i] is Bound
}

fn list_has_bound(v: &Vec<BoundOrFiller>) -> (r: bool)
    ensures
        r == has_bound(bofs_view(v@)),
{
    let ghost s = bofs_view(v@);
    let mut i: usize = 0;
    while i < v.len()
        invariant
            i <= v@.len(),
            s == bofs_view(v@),
            forall|j: int| 0 <= j < i ==> !(#[trigger] s[j] is Bound),
        decreases v.len() - i,
    {
        proof {
            assert(s[i as int] == v@[i as int]@);
        }
        match &v[i] {
            BoundOrFiller::Bound(_) => {
                return true;
            },
            BoundOrFiller::Filler(_) => {},
        }
        i = i + 1;
    }
    false
}

/// What a list of bounds written as `s` stands for: blank text is refused,
/// and so is a list without any bound.
pub open spec fn spec_bounds_list_from(s: &str) -> Result<Seq<BofView>, ErrorView> {
    if trim_end_ws(trim_start_ws(s@)).len() == 0 {
        Err(ErrorView::EmptyBoundsList)
    } else {
        match spec_parse_bounds_list(s.spec_bytes()) {
            Err(e) => Err(e),
            Ok(v) => if has_bound(v) {
                Ok(v)
            } else {
                Err(ErrorView::EmptyBoundsList)
            },
        }
    }
}

impl UserBoundsList {
    /// Parse a list of bounds (see `parse_bounds_list`) and build the list
    /// (see `UserBoundsList::new`).
    pub fn from_str(s: &str) -> (r: Result<UserBoundsList, TucError>)
        ensures
            match r {
                Ok(ubl) => spec_bounds_list_from(s) matches Ok(v) && ubl@ == mark_last(v)
                    && ubl.last_interesting_field == spec_last_interesting_field(v),
                Err(e) => spec_bounds_list_from(s) == Err::<Seq<BofView>, ErrorView>(e@),
            },
    {
        let t = str_trim(s);
        if t.is_empty() {
            return Err(TucError::EmptyBoundsList);
        }
        let list = parse_bounds_list(s)?;
        if !list_has_bound(&list) {
            return Err(TucError::EmptyBoundsList);
        }
        Ok(UserBoundsList::new(list))
    }
}

} // verus!
