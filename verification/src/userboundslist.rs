use crate::side::{ErrorView, Side, TucError};
use crate::side_order::side_order;
use crate::userbounds::{
    spec_complement, spec_unpack, unpack_ok, BofView, BoundOrFiller, UserBounds, UserBoundsView,
};
use core::cmp::Ordering;
use vstd::prelude::*;
use vstd::slice::slice_to_vec;

verus! {

/// A list of bounds and fillers, as written by the user.
#[derive(Debug)]
pub struct UserBoundsList {
    pub list: Vec<BoundOrFiller>,
    /// The rightmost field that any bound can reach, when every bound uses
    /// indices of the same sign; otherwise "up to the last field".
    pub last_interesting_field: Side,
}

/// The spec-level image of a list of bounds and fillers.
pub open spec fn bofs_view(v: Seq<BoundOrFiller>) -> Seq<BofView> {
    v.map_values(|x: BoundOrFiller| x@)
}

impl View for UserBoundsList {
    type V = Seq<BofView>;

    open spec fn view(&self) -> Seq<BofView> {
        bofs_view(self.list@)
    }
}

/// The bound has a side counted from the end.
pub open spec fn bound_has_negative(b: UserBoundsView) -> bool {
    b.l.is_negative || b.r.is_negative
}

/// The bound has a side counted from the start (an open right side does not
/// count: it fits both directions).
pub open spec fn bound_has_positive(b: UserBoundsView) -> bool {
    !b.l.is_negative || (!b.r.is_negative && b.r.value != usize::MAX)
}

pub open spec fn spec_has_negative_indices(s: Seq<BofView>) -> bool {
    exists|i: int| 0 <= i < s.len() && (#[trigger] s[i] matches BofView::Bound(b) && bound_has_negative(b))
}

pub open spec fn spec_has_positive_indices(s: Seq<BofView>) -> bool {
    exists|i: int| 0 <= i < s.len() && (#[trigger] s[i] matches BofView::Bound(b) && bound_has_positive(b))
}

/// A list can be sorted only when its bounds do not mix signs.
pub open spec fn spec_is_sortable(s: Seq<BofView>) -> bool {
    !(spec_has_positive_indices(s) && spec_has_negative_indices(s))
}

/// The bounds of a list, fillers left out, in order.
pub open spec fn bounds_only(s: Seq<BofView>) -> Seq<UserBoundsView>
    decreases s.len(),
{
    if s.len() == 0 {
        Seq::empty()
    } else {
        match s.last() {
            BofView::Bound(b) => bounds_only(s.drop_last()).push(b),
            BofView::Filler(_) => bounds_only(s.drop_last()),
        }
    }
}

/// `a` is at or before `b`: same sign and not greater.
pub open spec fn side_le(a: Side, b: Side) -> bool {
    side_order(a, b) == Some(Ordering::Less) || side_order(a, b) == Some(Ordering::Equal)
}

/// `a` comes strictly after `b`: same sign and greater.
pub open spec fn side_gt(a: Side, b: Side) -> bool {
    side_order(a, b) == Some(Ordering::Greater)
}

/// Each bound ends at or before where the next one starts.
pub open spec fn spec_is_sorted(s: Seq<BofView>) -> bool {
    let bs = bounds_only(s);
    forall|k: int| 0 <= k < bs.len() - 1 ==> side_le(#[trigger] bs[k].r, bs[k + 1].l)
}

/// Sorted, same sign, no negative index: the bounds move forward only.
pub open spec fn spec_is_forward_only(s: Seq<BofView>) -> bool {
    spec_is_sortable(s) && spec_is_sorted(s) && !spec_has_negative_indices(s)
}

/// The rightmost right side among the first `k` entries (the first one wins
/// ties and incomparable sides).
pub open spec fn rightmost_upto(s: Seq<BofView>, k: int) -> Option<Side>
    decreases k,
{
    if k <= 0 {
        None
    } else {
        let prev = rightmost_upto(s, k - 1);
        match s[k - 1] {
            BofView::Bound(b) => match prev {
                None => Some(b.r),
                Some(p) => if side_gt(b.r, p) {
                    Some(b.r)
                } else {
                    prev
                },
            },
            BofView::Filler(_) => prev,
        }
    }
}

/// The field beyond which no bound of the list looks: the rightmost right
/// side when every bound counts from the start; the open right side when
/// some bound counts from the end (or there is no bound).
pub open spec fn spec_last_interesting_field(s: Seq<BofView>) -> Side {
    if !spec_has_negative_indices(s) {
        match rightmost_upto(s, s.len() as int) {
            Some(side) => side,
            None => Side { value: usize::MAX, is_negative: false },
        }
    } else {
        Side { value: usize::MAX, is_negative: false }
    }
}

/// Where the last bound of the list sits.
pub open spec fn last_bound_index(s: Seq<BofView>) -> Option<int> {
    if exists|i: int| is_last_bound_index(s, i) {
        Some(choose|i: int| is_last_bound_index(s, i))
    } else {
        None
    }
}

pub open spec fn is_last_bound_index(s: Seq<BofView>, i: int) -> bool {
    &&& 0 <= i < s.len()
    &&& s[i] is Bound
    &&& forall|j: int| i < j < s.len() ==> !(#[trigger] s[j] is Bound)
}

/// The list with its last bound marked as last.
pub open spec fn mark_last(s: Seq<BofView>) -> Seq<BofView> {
    match last_bound_index(s) {
        None => s,
        Some(i) => match s[i] {
            BofView::Bound(b) => s.update(i, BofView::Bound(UserBoundsView { is_last: true, ..b })),
            BofView::Filler(f) => s,
        },
    }
}

pub(crate) proof fn lemma_last_bound_unique(s: Seq<BofView>, i: int, k: int)
    requires
        is_last_bound_index(s, i),
        is_last_bound_index(s, k),
    ensures
        i == k,
{
    if i < k {
        assert(!(s[k] is Bound));
    } else if k < i {
        assert(!(s[i] is Bound));
    }
}

pub(crate) proof fn lemma_bounds_only_step(s: Seq<BofView>, i: int)
    requires
        0 <= i < s.len(),
    ensures
        bounds_only(s.subrange(0, i + 1)) == match s[i] {
            BofView::Bound(b) => bounds_only(s.subrange(0, i)).push(b),
            BofView::Filler(_) => bounds_only(s.subrange(0, i)),
        },
{
    assert(s.subrange(0, i + 1).drop_last() =~= s.subrange(0, i));
}

/// A copy of a bound or filler.
pub fn duplicate_bof(x: &BoundOrFiller) -> (y: BoundOrFiller)
    ensures
        y@ == x@,
{
    match x {
        BoundOrFiller::Bound(b) => BoundOrFiller::Bound(b.duplicate()),
        BoundOrFiller::Filler(f) => BoundOrFiller::Filler(slice_to_vec(f.as_slice())),
    }
}

impl UserBoundsList {
    /// Build a list: its last bound is marked as last, and the rightmost
    /// field of interest is computed.
    pub fn new(list: Vec<BoundOrFiller>) -> (ubl: UserBoundsList)
        ensures
            ubl@ == mark_last(bofs_view(list@)),
            ubl.last_interesting_field == spec_last_interesting_field(bofs_view(list@)),
    {
        let ghost orig = bofs_view(list@);
        let sortable = !list_has_negative(&list);
        let mut rightmost: Option<Side> = None;
        let mut last_idx: Option<usize> = None;
        let mut i: usize = 0;
        while i < list.len()
            invariant
                i <= list@.len(),
                orig == bofs_view(list@),
                rightmost == rightmost_upto(orig, i as int),
                match last_idx {
                    Some(k) => k < i && orig[k as int] is Bound && forall|j: int|
                        k < j < i ==> !(#[trigger] orig[j] is Bound),
                    None => forall|j: int| 0 <= j < i ==> !(#[trigger] orig[j] is Bound),
                },
            decreases list.len() - i,
        {
            match &list[i] {
                BoundOrFiller::Bound(b) => {
                    let take = match rightmost {
                        None => true,
                        Some(p) => greater(b.r, p),
                    };
                    if take {
                        rightmost = Some(b.r);
                    }
                    last_idx = Some(i);
                },
                BoundOrFiller::Filler(_) => {},
            }
            i = i + 1;
        }
        let last_interesting_field = if sortable {
            match rightmost {
                Some(s) => s,
                None => Side::with_pos_inf(),
            }
        } else {
            Side::with_pos_inf()
        };
        let mut list = list;
        match last_idx {
            None => {
                proof {
                    assert(!exists|k: int| is_last_bound_index(orig, k));
                }
            },
            Some(k) => {
                proof {
                    assert(is_last_bound_index(orig, k as int));
                    let c = choose|c: int| is_last_bound_index(orig, c);
                    lemma_last_bound_unique(orig, k as int, c);
                }
                let ghost before = list@;
                let item = list.remove(k);
                let item = match item {
                    BoundOrFiller::Bound(mut b) => {
                        b.is_last = true;
                        BoundOrFiller::Bound(b)
                    },
                    BoundOrFiller::Filler(f) => BoundOrFiller::Filler(f),
                };
                list.insert(k, item);
                proof {
                    assert(bofs_view(list@) =~= mark_last(orig));
                }
            },
        }
        UserBoundsList { list, last_interesting_field }
    }
}

/// `a` comes strictly after `b` (same sign).
fn greater(a: Side, b: Side) -> (r: bool)
    ensures
        r == side_gt(a, b),
{
    if a.is_negative != b.is_negative {
        false
    } else if a.is_negative {
        a.value < b.value
    } else {
        a.value > b.value
    }
}

/// `a` comes at or before `b` (same sign).
fn less_or_equal(a: Side, b: Side) -> (r: bool)
    ensures
        r == side_le(a, b),
{
    if a.is_negative != b.is_negative {
        false
    } else if a.is_negative {
        a.value >= b.value
    } else {
        a.value <= b.value
    }
}

/// Whether the bounds of `list` do not mix signs.
/// The list holds a bound.
pub open spec fn has_bound(s: Seq<BofView>) -> bool {
    exists|i: int| 0 <= i < s.len() && #[trigger] s[i] is Bound
}

/// Whether the list holds a bound.
fn list_has_bound(list: &Vec<BoundOrFiller>) -> (r: bool)
    ensures
        r == has_bound(bofs_view(list@)),
{
    let ghost s = bofs_view(list@);
    let mut i: usize = 0;
    while i < list.len()
        invariant
            i <= list@.len(),
            s == bofs_view(list@),
            forall|j: int| 0 <= j < i ==> !(#[trigger] s[j] is Bound),
        decreases list.len() - i,
    {
        proof {
            assert(s[i as int] == list@[i as int]@);
        }
        match &list[i] {
            BoundOrFiller::Bound(_) => {
                return true;
            },
            BoundOrFiller::Filler(_) => {},
        }
        i = i + 1;
    }
    false
}

/// Whether some bound of the list has a side counted from the end.
fn list_has_negative(list: &Vec<BoundOrFiller>) -> (r: bool)
    ensures
        r == spec_has_negative_indices(bofs_view(list@)),
{
    let ghost s = bofs_view(list@);
    let mut i: usize = 0;
    while i < list.len()
        invariant
            i <= list@.len(),
            s == bofs_view(list@),
            forall|j: int| 0 <= j < i ==> !(#[trigger] s[j] matches BofView::Bound(b) && bound_has_negative(b)),
        decreases list.len() - i,
    {
        proof {
            assert(s[i as int] == list@[i as int]@);
        }
        match &list[i] {
            BoundOrFiller::Bound(b) => {
                if b.l.is_negative || b.r.is_negative {
                    return true;
                }
            },
            BoundOrFiller::Filler(_) => {},
        }
        i = i + 1;
    }
    false
}

fn is_sortable_list(list: &Vec<BoundOrFiller>) -> (r: bool)
    ensures
        r == spec_is_sortable(bofs_view(list@)),
{
    let ghost s = bofs_view(list@);
    let mut has_positive = false;
    let mut has_negative = false;
    let mut i: usize = 0;
    while i < list.len()
        invariant
            i <= list@.len(),
            s == bofs_view(list@),
            has_positive == exists|j: int|
                0 <= j < i && (#[trigger] s[j] matches BofView::Bound(b) && bound_has_positive(b)),
            has_negative == exists|j: int|
                0 <= j < i && (#[trigger] s[j] matches BofView::Bound(b) && bound_has_negative(b)),
        decreases list.len() - i,
    {
        match &list[i] {
            BoundOrFiller::Bound(b) => {
                if !b.l.is_negative || (!b.r.is_negative && b.r.value != usize::MAX) {
                    has_positive = true;
                }
                if b.l.is_negative || b.r.is_negative {
                    has_negative = true;
                }
            },
            BoundOrFiller::Filler(_) => {},
        }
        proof {
            assert(s[i as int] == list@[i as int]@);
        }
        i = i + 1;
    }
    !(has_negative && has_positive)
}

impl UserBoundsList {
    /// The bounds of the list, fillers left out, in order.
    pub fn get_userbounds_only(&self) -> (v: Vec<UserBounds>)
        ensures
            v@.map_values(|b: UserBounds| b@) == bounds_only(self@),
    {
        let ghost s = self@;
        let mut v: Vec<UserBounds> = Vec::new();
        let mut i: usize = 0;
        proof {
            assert(s.subrange(0, 0) =~= Seq::<BofView>::empty());
            assert(v@.map_values(|b: UserBounds| b@) =~= Seq::<UserBoundsView>::empty());
        }
        while i < self.list.len()
            invariant
                i <= self.list@.len(),
                s == self@,
                v@.map_values(|b: UserBounds| b@) == bounds_only(s.subrange(0, i as int)),
            decreases self.list.len() - i,
        {
            proof {
                lemma_bounds_only_step(s, i as int);
                assert(s[i as int] == self.list@[i as int]@);
            }
            match &self.list[i] {
                BoundOrFiller::Bound(b) => {
                    let ghost before = v@;
                    v.push(b.duplicate());
                    proof {
                        assert(v@.map_values(|b: UserBounds| b@) =~= before.map_values(|b: UserBounds| b@).push(b@));
                    }
                },
                BoundOrFiller::Filler(_) => {},
            }
            i = i + 1;
        }
        proof {
            assert(s.subrange(0, s.len() as int) =~= s);
        }
        v
    }

    /// Whether the list can be sorted: its bounds do not mix signs.
    pub fn is_sortable(&self) -> (r: bool)
        ensures
            r == spec_is_sortable(self@),
    {
        is_sortable_list(&self.list)
    }

    /// Whether each bound ends at or before where the next one starts.
    pub fn is_sorted(&self) -> (r: bool)
        ensures
            r == spec_is_sorted(self@),
    {
        let ghost s = self@;
        let mut prev: Option<Side> = None;
        let mut i: usize = 0;
        while i < self.list.len()
            invariant
                i <= self.list@.len(),
                s == self@,
                spec_is_sorted(s.subrange(0, i as int)),
                match prev {
                    None => bounds_only(s.subrange(0, i as int)).len() == 0,
                    Some(p) => bounds_only(s.subrange(0, i as int)).len() > 0 && bounds_only(
                        s.subrange(0, i as int),
                    ).last().r == p,
                },
            decreases self.list.len() - i,
        {
            proof {
                lemma_bounds_only_step(s, i as int);
                assert(s[i as int] == self.list@[i as int]@);
            }
            match &self.list[i] {
                BoundOrFiller::Bound(b) => {
                    match prev {
                        None => {},
                        Some(p) => {
                            if !less_or_equal(p, b.l) {
                                proof {
                                    let bs = bounds_only(s.subrange(0, i as int + 1));
                                    let k = bs.len() - 2;
                                    assert(!side_le(bs[k].r, bs[k + 1].l));
                                    lemma_sorted_prefix(s, i as int + 1);
                                }
                                return false;
                            }
                        },
                    }
                    prev = Some(b.r);
                },
                BoundOrFiller::Filler(_) => {},
            }
            i = i + 1;
        }
        proof {
            assert(s.subrange(0, s.len() as int) =~= s);
        }
        true
    }

    /// Whether some bound uses a side counted from the end.
    pub fn has_negative_indices(&self) -> (r: bool)
        ensures
            r == spec_has_negative_indices(self@),
    {
        let ghost s = self@;
        let mut i: usize = 0;
        while i < self.list.len()
            invariant
                i <= self.list@.len(),
                s == self@,
                forall|j: int|
                    0 <= j < i ==> !(#[trigger] s[j] matches BofView::Bound(b) && bound_has_negative(b)),
            decreases self.list.len() - i,
        {
            proof {
                assert(s[i as int] == self.list@[i as int]@);
            }
            match &self.list[i] {
                BoundOrFiller::Bound(b) => {
                    if b.l.is_negative || b.r.is_negative {
                        return true;
                    }
                },
                BoundOrFiller::Filler(_) => {},
            }
            i = i + 1;
        }
        false
    }

    /// The bounds are in ascending order, use solely positive indices and
    /// do not overlap (they can be adjacent, e.g. 1:2,2,3).
    pub fn is_forward_only(&self) -> (r: bool)
        ensures
            r == spec_is_forward_only(self@),
    {
        self.is_sortable() && self.is_sorted() && !self.has_negative_indices()
    }
}

/// A list that is sorted stays sorted when cut shorter; one that is not,
/// stays unsorted when extended.
proof fn lemma_sorted_prefix(s: Seq<BofView>, i: int)
    requires
        0 <= i <= s.len(),
        !spec_is_sorted(s.subrange(0, i)),
    ensures
        !spec_is_sorted(s),
    decreases s.len() - i,
{
    if i < s.len() {
        lemma_bounds_only_step(s, i);
        let a = bounds_only(s.subrange(0, i));
        let b = bounds_only(s.subrange(0, i + 1));
        assert forall|k: int| 0 <= k < a.len() - 1 implies #[trigger] a[k] == b[k] && a[k + 1] == b[k + 1] by {}
        lemma_sorted_prefix(s, i + 1);
    } else {
        assert(s.subrange(0, i) =~= s);
    }
}

/// What `unpack` turns one entry into: a bound becomes one single-field
/// bound per field it covers (a bound that cannot be resolved against `n`
/// fields is kept as it is); a filler stays.
pub open spec fn unpack_one(x: BofView, n: int) -> Seq<BofView> {
    match x {
        BofView::Filler(f) => seq![x],
        BofView::Bound(b) => if unpack_ok(b.l, b.r, n) {
            spec_unpack(b.l, b.r, n).map_values(|u: UserBoundsView| BofView::Bound(u))
        } else {
            seq![BofView::Bound(UserBoundsView { is_last: false, ..b })]
        },
    }
}

/// Every entry of `s` unpacked, in order.
pub open spec fn unpack_list(s: Seq<BofView>, n: int) -> Seq<BofView>
    decreases s.len(),
{
    if s.len() == 0 {
        Seq::empty()
    } else {
        unpack_list(s.drop_last(), n) + unpack_one(s.last(), n)
    }
}

/// What `complement` turns one entry into: a bound becomes the bounds of the
/// fields it leaves out (nothing when it cannot be resolved against `n`
/// fields); a filler stays.
pub open spec fn complement_one(x: BofView, n: int) -> Seq<BofView> {
    match x {
        BofView::Filler(f) => seq![x],
        BofView::Bound(b) => match spec_complement(b.l, b.r, n) {
            Ok(bs) => bs.map_values(|u: UserBoundsView| BofView::Bound(u)),
            Err(_) => Seq::empty(),
        },
    }
}

/// Every entry of `s` complemented, in order.
pub open spec fn complement_list(s: Seq<BofView>, n: int) -> Seq<BofView>
    decreases s.len(),
{
    if s.len() == 0 {
        Seq::empty()
    } else {
        complement_list(s.drop_last(), n) + complement_one(s.last(), n)
    }
}

proof fn lemma_unpack_list_step(s: Seq<BofView>, i: int, n: int)
    requires
        0 <= i < s.len(),
    ensures
        unpack_list(s.subrange(0, i + 1), n) == unpack_list(s.subrange(0, i), n) + unpack_one(s[i], n),
{
    assert(s.subrange(0, i + 1).drop_last() =~= s.subrange(0, i));
}

proof fn lemma_complement_list_step(s: Seq<BofView>, i: int, n: int)
    requires
        0 <= i < s.len(),
    ensures
        complement_list(s.subrange(0, i + 1), n) == complement_list(s.subrange(0, i), n)
            + complement_one(s[i], n),
{
    assert(s.subrange(0, i + 1).drop_last() =~= s.subrange(0, i));
}

/// Append bounds to a list of bounds and fillers.
fn push_bounds(out: &mut Vec<BoundOrFiller>, bs: Vec<UserBounds>)
    ensures
        bofs_view(final(out)@) == bofs_view(old(out)@) + bs@.map_values(
            |u: UserBounds| BofView::Bound(u@),
        ),
{
    let ghost start = bofs_view(out@);
    let ghost target = bs@.map_values(|u: UserBounds| BofView::Bound(u@));
    let mut bs = bs;
    let mut rev: Vec<UserBounds> = Vec::new();
    while bs.len() > 0
        invariant
            rev@.len() + bs@.len() == target.len(),
            forall|k: int| 0 <= k < bs@.len() ==> BofView::Bound((#[trigger] bs@[k])@) == target[k],
            forall|k: int|
                0 <= k < rev@.len() ==> BofView::Bound((#[trigger] rev@[k])@) == target[target.len() - 1 - k],
        decreases bs@.len(),
    {
        let u = bs.pop().unwrap();
        rev.push(u);
    }
    let mut i: usize = 0;
    let n = rev.len();
    while rev.len() > 0
        invariant
            rev@.len() + i == n,
            n == target.len(),
            forall|k: int|
                0 <= k < rev@.len() ==> BofView::Bound((#[trigger] rev@[k])@) == target[n - 1 - k],
            bofs_view(out@) == start + target.subrange(0, i as int),
        decreases rev@.len(),
    {
        let u = rev.pop().unwrap();
        let ghost before = out@;
        let item = BoundOrFiller::Bound(u);
        out.push(item);
        proof {
            assert(bofs_view(out@) =~= bofs_view(before).push(item@));
            assert(item@ == target[i as int]);
            assert(target.subrange(0, i + 1) =~= target.subrange(0, i as int).push(target[i as int]));
        }
        i = i + 1;
    }
    proof {
        assert(target.subrange(0, n as int) =~= target);
    }
}

impl UserBoundsList {
    /// A list with every ranged bound converted into single-field bounds
    /// (see `unpack_one`), e.g. `1:3,4,-2:` over 6 fields gives
    /// `1,2,3,4,5,6`.
    pub fn unpack(&self, num_fields: usize) -> (r: UserBoundsList)
        ensures
            r@ == mark_last(unpack_list(self@, num_fields as int)),
            r.last_interesting_field == spec_last_interesting_field(unpack_list(self@, num_fields as int)),
    {
        let ghost s = self@;
        let mut out: Vec<BoundOrFiller> = Vec::new();
        let mut i: usize = 0;
        proof {
            assert(bofs_view(out@) =~= unpack_list(s.subrange(0, 0), num_fields as int));
        }
        while i < self.list.len()
            invariant
                i <= self.list@.len(),
                s == self@,
                bofs_view(out@) == unpack_list(s.subrange(0, i as int), num_fields as int),
            decreases self.list.len() - i,
        {
            proof {
                lemma_unpack_list_step(s, i as int, num_fields as int);
                assert(s[i as int] == self.list@[i as int]@);
            }
            match &self.list[i] {
                BoundOrFiller::Filler(f) => {
                    let ghost before = out@;
                    let item = BoundOrFiller::Filler(slice_to_vec(f.as_slice()));
                    out.push(item);
                    proof {
                        assert(bofs_view(out@) =~= bofs_view(before) + seq![item@]);
                    }
                },
                BoundOrFiller::Bound(b) => {
                    if unpack_ok_exec(b, num_fields) {
                        let bs = b.unpack(num_fields);
                        let ghost bsv = bs@;
                        push_bounds(&mut out, bs);
                        proof {
                            assert(bsv.map_values(|u: UserBounds| BofView::Bound(u@)) =~= spec_unpack(
                                b.l,
                                b.r,
                                num_fields as int,
                            ).map_values(|u: UserBoundsView| BofView::Bound(u)));
                        }
                    } else {
                        let ghost before = out@;
                        let mut c = b.duplicate();
                        c.is_last = false;
                        let item = BoundOrFiller::Bound(c);
                        out.push(item);
                        proof {
                            assert(bofs_view(out@) =~= bofs_view(before) + seq![item@]);
                        }
                    }
                },
            }
            i = i + 1;
        }
        proof {
            assert(s.subrange(0, s.len() as int) =~= s);
        }
        UserBoundsList::new(out)
    }

    /// A list with every bound replaced by the bounds of the fields it
    /// leaves out among `num_fields` fields (see `complement_one`). It is an
    /// error when nothing is left.
    pub fn complement(&self, num_fields: usize) -> (r: Result<UserBoundsList, TucError>)
        requires
            num_fields > 0,
        ensures
            match r {
                Ok(ubl) => has_bound(complement_list(self@, num_fields as int)) && ubl@ == mark_last(
                    complement_list(self@, num_fields as int),
                ) && ubl.last_interesting_field == spec_last_interesting_field(
                    complement_list(self@, num_fields as int),
                ),
                Err(e) => !has_bound(complement_list(self@, num_fields as int)) && e@ == ErrorView::EmptyComplement,
            },
    {
        let ghost s = self@;
        let mut out: Vec<BoundOrFiller> = Vec::new();
        let mut i: usize = 0;
        proof {
            assert(bofs_view(out@) =~= complement_list(s.subrange(0, 0), num_fields as int));
        }
        while i < self.list.len()
            invariant
                i <= self.list@.len(),
                num_fields > 0,
                s == self@,
                bofs_view(out@) == complement_list(s.subrange(0, i as int), num_fields as int),
            decreases self.list.len() - i,
        {
            proof {
                lemma_complement_list_step(s, i as int, num_fields as int);
                assert(s[i as int] == self.list@[i as int]@);
            }
            match &self.list[i] {
                BoundOrFiller::Filler(f) => {
                    let ghost before = out@;
                    let item = BoundOrFiller::Filler(slice_to_vec(f.as_slice()));
                    out.push(item);
                    proof {
                        assert(bofs_view(out@) =~= bofs_view(before) + seq![item@]);
                    }
                },
                BoundOrFiller::Bound(b) => {
                    match b.complement(num_fields) {
                        Ok(bs) => {
                            let ghost bsv = bs@;
                            push_bounds(&mut out, bs);
                            proof {
                                let t = spec_complement(b.l, b.r, num_fields as int)->Ok_0;
                                assert(bsv.map_values(|u: UserBounds| BofView::Bound(u@)) =~= t.map_values(
                                    |u: UserBoundsView| BofView::Bound(u),
                                ));
                            }
                        },
                        Err(_) => {
                            proof {
                                assert(out@ == out@);
                                assert(bofs_view(out@) + Seq::<BofView>::empty() =~= bofs_view(out@));
                            }
                        },
                    }
                },
            }
            i = i + 1;
        }
        proof {
            assert(s.subrange(0, s.len() as int) =~= s);
        }
        if !list_has_bound(&out) {
            return Err(TucError::EmptyComplement);
        }
        Ok(UserBoundsList::new(out))
    }
}

/// Whether `unpack` can resolve the bound against `n` fields.
fn unpack_ok_exec(b: &UserBounds, n: usize) -> (r: bool)
    ensures
        r == unpack_ok(b.l, b.r, n as int),
{
    n > 0 && (!b.l.is_negative || b.l.value < n) && (!(b.r.is_negative && b.r.value != usize::MAX)
        || b.r.value < n)
}

} // verus!
