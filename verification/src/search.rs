use vstd::prelude::*;

verus! {

/// `n` occurs in `h` starting at `i`.
pub open spec fn occurs_at(h: Seq<u8>, n: Seq<u8>, i: int) -> bool {
    0 <= i && i + n.len() <= h.len() && h.subrange(i, i + n.len()) == n
}

/// The step taken after an occurrence: the needle's length (1 for an empty needle).
pub open spec fn step(n: Seq<u8>) -> int {
    if n.len() == 0 {
        1
    } else {
        n.len() as int
    }
}

/// The non-overlapping occurrences of `n` in `h` at or after `pos`, found
/// from left to right: each occurrence is the first one that starts at or
/// after the end of the previous one.
pub open spec fn find_fwd(h: Seq<u8>, n: Seq<u8>, pos: int) -> Seq<int>
    decreases h.len() + 1 - pos,
{
    if pos < 0 || pos + n.len() > h.len() {
        Seq::empty()
    } else if occurs_at(h, n, pos) {
        seq![pos] + find_fwd(h, n, pos + step(n))
    } else {
        find_fwd(h, n, pos + 1)
    }
}

/// The non-overlapping occurrences of `n` that lie within `h[..end]`, found
/// from right to left: each occurrence is the last one that ends at or before
/// the start of the previous one.
pub open spec fn find_rev(h: Seq<u8>, n: Seq<u8>, end: int) -> Seq<int>
    decreases end,
{
    if end < 0 || end > h.len() || end < n.len() {
        Seq::empty()
    } else if occurs_at(h, n, end - n.len()) {
        if n.len() == 0 {
            if end == 0 {
                seq![end]
            } else {
                seq![end] + find_rev(h, n, end - 1)
            }
        } else {
            seq![end - n.len()] + find_rev(h, n, end - n.len())
        }
    } else if end == 0 {
        Seq::empty()
    } else {
        find_rev(h, n, end - 1)
    }
}

/// The positions as mathematical integers.
pub open spec fn ints(s: Seq<usize>) -> Seq<int> {
    s.map_values(|x: usize| x as int)
}

/// `h` with the occurrences at `ps` (each of length `nlen`) replaced by `r`,
/// copying from `last` on.
pub open spec fn replace_from(h: Seq<u8>, ps: Seq<int>, nlen: int, r: Seq<u8>, last: int) -> Seq<u8>
    decreases ps.len(),
{
    if ps.len() == 0 {
        h.subrange(last, h.len() as int)
    } else {
        h.subrange(last, ps[0]) + r + replace_from(h, ps.drop_first(), nlen, r, ps[0] + nlen)
    }
}

/// `h` with every non-overlapping occurrence of `n` (found left to right)
/// replaced by `r`.
pub open spec fn spec_replace(h: Seq<u8>, n: Seq<u8>, r: Seq<u8>) -> Seq<u8> {
    replace_from(h, find_fwd(h, n, 0), n.len() as int, r, 0)
}

/// Positions found left to right are occurrences, in range, each at least one
/// step after the previous one.
pub open spec fn fwd_positions_wf(h: Seq<u8>, n: Seq<u8>, ps: Seq<int>, pos: int) -> bool {
    &&& forall|k: int| 0 <= k < ps.len() ==> occurs_at(h, n, #[trigger] ps[k])
    &&& forall|k: int| 0 <= k < ps.len() ==> pos <= #[trigger] ps[k]
    &&& forall|k: int| 0 <= k < ps.len() - 1 ==> #[trigger] ps[k] + step(n) <= ps[k + 1]
}

pub proof fn lemma_find_fwd_wf(h: Seq<u8>, n: Seq<u8>, pos: int)
    ensures
        fwd_positions_wf(h, n, find_fwd(h, n, pos), pos),
    decreases h.len() + 1 - pos,
{
    if pos < 0 || pos + n.len() > h.len() {
    } else if occurs_at(h, n, pos) {
        lemma_find_fwd_wf(h, n, pos + step(n));
        let rest = find_fwd(h, n, pos + step(n));
        let all = seq![pos] + rest;
        assert forall|k: int| 0 <= k < all.len() - 1 implies #[trigger] all[k] + step(n) <= all[k + 1] by {
            if k > 0 {
                assert(all[k] == rest[k - 1]);
                assert(all[k + 1] == rest[k]);
            } else if rest.len() > 0 {
                assert(all[1] == rest[0]);
            }
        }
        assert forall|k: int| 0 <= k < all.len() implies occurs_at(h, n, #[trigger] all[k]) by {
            if k > 0 {
                assert(all[k] == rest[k - 1]);
            }
        }
        assert forall|k: int| 0 <= k < all.len() implies pos <= #[trigger] all[k] by {
            if k > 0 {
                assert(all[k] == rest[k - 1]);
            }
        }
    } else {
        lemma_find_fwd_wf(h, n, pos + 1);
    }
}

/// Positions found right to left are occurrences within `h[..end]`, each at
/// least one step before the previous one.
pub open spec fn rev_positions_wf(h: Seq<u8>, n: Seq<u8>, ps: Seq<int>, end: int) -> bool {
    &&& forall|k: int| 0 <= k < ps.len() ==> occurs_at(h, n, #[trigger] ps[k])
    &&& forall|k: int| 0 <= k < ps.len() ==> #[trigger] ps[k] + n.len() <= end
    &&& forall|k: int| 0 <= k < ps.len() - 1 ==> ps[k + 1] + step(n) <= #[trigger] ps[k]
}

pub proof fn lemma_find_rev_wf(h: Seq<u8>, n: Seq<u8>, end: int)
    ensures
        rev_positions_wf(h, n, find_rev(h, n, end), end),
    decreases end,
{
    if end < 0 || end > h.len() || end < n.len() {
    } else if occurs_at(h, n, end - n.len()) {
        let p = end - n.len();
        if n.len() == 0 && end == 0 {
        } else {
            let e2 = if n.len() == 0 { end - 1 } else { p };
            lemma_find_rev_wf(h, n, e2);
            let rest = find_rev(h, n, e2);
            let all = seq![p] + rest;
            assert(all == find_rev(h, n, end));
            assert forall|k: int| 0 <= k < all.len() - 1 implies all[k + 1] + step(n) <= #[trigger] all[k] by {
                if k > 0 {
                    assert(all[k] == rest[k - 1]);
                    assert(all[k + 1] == rest[k]);
                } else {
                    assert(all[1] == rest[0]);
                    assert(rest[0] + n.len() <= e2);
                }
            }
            assert forall|k: int| 0 <= k < all.len() implies occurs_at(h, n, #[trigger] all[k]) by {
                if k > 0 {
                    assert(all[k] == rest[k - 1]);
                }
            }
            assert forall|k: int| 0 <= k < all.len() implies #[trigger] all[k] + n.len() <= end by {
                if k > 0 {
                    assert(all[k] == rest[k - 1]);
                }
            }
        }
    } else if end == 0 {
    } else {
        lemma_find_rev_wf(h, n, end - 1);
    }
}

/// Where `needle` occurs in `haystack`, left to right, without overlap
/// (`memchr::memmem::find_iter`). The crate documents the iterator as
/// yielding "all non-overlapping occurrences"; its source restarts each
/// search right after the previous match (one byte later for an empty
/// needle, which matches at every position, the end included).
#[verifier::external_body]
pub(crate) fn memmem_find_all(haystack: &[u8], needle: &[u8]) -> (r: Vec<usize>)
    ensures
        ints(r@) == find_fwd(haystack@, needle@, 0),
{
    memchr::memmem::find_iter(haystack, needle).collect()
}

/// Where `needle` occurs in `haystack`, right to left, without overlap
/// (`memchr::memmem::rfind_iter`). The crate documents "a reverse iterator
/// over all non-overlapping occurrences"; its source searches each time in
/// the part of the haystack before the previous match.
#[verifier::external_body]
pub(crate) fn memmem_rfind_all(haystack: &[u8], needle: &[u8]) -> (r: Vec<usize>)
    ensures
        ints(r@) == find_rev(haystack@, needle@, haystack@.len() as int),
{
    memchr::memmem::rfind_iter(haystack, needle).collect()
}

/// Where the byte `needle` occurs in `haystack`, left to right
/// (`memchr::memchr_iter`): "all occurrences of the needle".
#[verifier::external_body]
pub(crate) fn memchr_find_all(needle: u8, haystack: &[u8]) -> (r: Vec<usize>)
    ensures
        ints(r@) == find_fwd(haystack@, seq![needle], 0),
{
    memchr::memchr_iter(needle, haystack).collect()
}

/// Where `needle` occurs in `haystack`, left to right, without overlap
/// (`bstr::ByteSlice::find_iter`, which the crate builds on
/// `memchr::memmem::find_iter`).
#[verifier::external_body]
pub(crate) fn bytes_find_all(haystack: &[u8], needle: &[u8]) -> (r: Vec<usize>)
    ensures
        ints(r@) == find_fwd(haystack@, needle@, 0),
{
    bstr::ByteSlice::find_iter(haystack, needle).collect()
}

/// `haystack` with every occurrence of `needle` replaced by `replacement`
/// (`bstr::ByteSlice::replace`): the crate copies the text between the
/// positions that `find_iter` yields and writes the replacement in place of
/// each occurrence.
#[verifier::external_body]
pub(crate) fn bytes_replace(haystack: &[u8], needle: &[u8], replacement: &[u8]) -> (r: Vec<u8>)
    ensures
        r@ == spec_replace(haystack@, needle@, replacement@),
{
    bstr::ByteSlice::replace(haystack, needle, replacement)
}

/// The positions from `i` on where `h` holds the byte `a` or the byte `b`,
/// in increasing order.
pub open spec fn positions2(h: Seq<u8>, a: u8, b: u8, i: int) -> Seq<int>
    decreases h.len() - i,
{
    if i < 0 || i >= h.len() {
        Seq::empty()
    } else if h[i] == a || h[i] == b {
        seq![i] + positions2(h, a, b, i + 1)
    } else {
        positions2(h, a, b, i + 1)
    }
}

/// Where `haystack` holds either byte, left to right
/// (`memchr::memchr2_iter`): "all occurrences of either of the needles".
#[verifier::external_body]
pub(crate) fn memchr2_find_all(needle1: u8, needle2: u8, haystack: &[u8]) -> (r: Vec<usize>)
    ensures
        ints(r@) == positions2(haystack@, needle1, needle2, 0),
{
    memchr::memchr2_iter(needle1, needle2, haystack).collect()
}

} // verus!
