use crate::side::{res_view, spec_side_from, ErrorView, Side, TucError};
use crate::text::{bound_bytes, bound_text, find_byte, first_index_of, lossy_utf8, string_from_bytes};
use vstd::std_specs::cmp::PartialEqSpecImpl;
use core::ops::Range;
use vstd::prelude::*;
use vstd::slice::slice_to_vec;
use vstd::string::StringSliceAdditionalSpecFns;

verus! {

/// A bound: a range of fields from `l` to `r`, both included.
#[derive(Debug)]
pub struct UserBounds {
    pub l: Side,
    pub r: Side,
    /// Set on the last bound of a list (no delimiter is joined after it).
    pub is_last: bool,
    /// What to print when the bound points outside the available fields.
    pub fallback_oob: Option<Vec<u8>>,
}

/// The spec-level image of a `UserBounds`.
pub struct UserBoundsView {
    pub l: Side,
    pub r: Side,
    pub is_last: bool,
    pub fallback_oob: Option<Seq<u8>>,
}

pub open spec fn opt_bytes_view(o: Option<Vec<u8>>) -> Option<Seq<u8>> {
    match o {
        Some(v) => Some(v@),
        None => None,
    }
}

impl View for UserBounds {
    type V = UserBoundsView;

    open spec fn view(&self) -> UserBoundsView {
        UserBoundsView {
            l: self.l,
            r: self.r,
            is_last: self.is_last,
            fallback_oob: opt_bytes_view(self.fallback_oob),
        }
    }
}

/// A bound with neither fallback nor last mark.
pub open spec fn plain_bound(l: Side, r: Side) -> UserBoundsView {
    UserBoundsView { l, r, is_last: false, fallback_oob: None }
}

/// A bound on a single 0-indexed positive field.
pub open spec fn single_field(i: int) -> UserBoundsView {
    plain_bound(
        Side { value: i as usize, is_negative: false },
        Side { value: i as usize, is_negative: false },
    )
}

impl PartialEq for UserBounds {
    /// Two bounds are equal when their sides are.
    fn eq(&self, other: &Self) -> (r: bool) {
        self.l == other.l && self.r == other.r
    }
}

impl PartialEqSpecImpl for UserBounds {
    open spec fn obeys_eq_spec() -> bool {
        true
    }

    open spec fn eq_spec(&self, other: &Self) -> bool {
        self.l == other.l && self.r == other.r
    }
}

impl Default for UserBounds {
    /// The bound `1:`, every field.
    fn default() -> (b: UserBounds)
        ensures
            b@ == plain_bound(
                Side { value: 0, is_negative: false },
                Side { value: usize::MAX, is_negative: false },
            ),
    {
        UserBounds::new(Side::new_inf_left(), Side::new_inf_right())
    }
}

impl UserBounds {
    /// How the bound is written: one side when both are equal, `l:-1` when
    /// the right side is open, `l:r` otherwise.
    pub fn to_string(&self) -> (s: String)
        ensures
            s@ == lossy_utf8(bound_text(self.l, self.r)),
    {
        let b = bound_bytes(self.l, self.r);
        string_from_bytes(b.as_slice())
    }
}

/// Either a bound or a piece of text to print as-is.
#[derive(Debug, PartialEq)]
pub enum BoundOrFiller {
    Bound(UserBounds),
    Filler(Vec<u8>),
}

/// The spec-level image of a `BoundOrFiller`.
pub enum BofView {
    Bound(UserBoundsView),
    Filler(Seq<u8>),
}

impl View for BoundOrFiller {
    type V = BofView;

    open spec fn view(&self) -> BofView {
        match self {
            BoundOrFiller::Bound(b) => BofView::Bound(b@),
            BoundOrFiller::Filler(f) => BofView::Filler(f@),
        }
    }
}

/// Two sides are in the wrong order: both positive with the right one first,
/// or both negative with the left one closer to the end.
pub open spec fn sides_out_of_order(l: Side, r: Side) -> bool {
    l != r && ((!l.is_negative && !r.is_negative && r.value < l.value) || (l.is_negative
        && r.is_negative && l.value < r.value))
}

/// The two sides written in `s` (a bound without its fallback).
pub open spec fn spec_sides_from(s: Seq<u8>) -> Result<(Side, Side), ErrorView> {
    match first_index_of(s, 58u8) {
        None => match spec_side_from(s, true) {
            Ok(side) => Ok((side, side)),
            Err(e) => Err(e),
        },
        Some(i) => {
            if i == 0 {
                match spec_side_from(s.subrange(1, s.len() as int), false) {
                    Ok(r) => Ok((Side { value: 0, is_negative: false }, r)),
                    Err(e) => Err(e),
                }
            } else if i == s.len() - 1 {
                match spec_side_from(s.subrange(0, i), true) {
                    Ok(l) => Ok((l, Side { value: usize::MAX, is_negative: false })),
                    Err(e) => Err(e),
                }
            } else {
                match spec_side_from(s.subrange(0, i), true) {
                    Ok(l) => match spec_side_from(s.subrange(i + 1, s.len() as int), false) {
                        Ok(r) => Ok((l, r)),
                        Err(e) => Err(e),
                    },
                    Err(e) => Err(e),
                }
            }
        },
    }
}

/// A bound written as text: `N`, `N:M`, `:M`, `N:` where N and M are non-zero
/// integers (negative ones count from the end), optionally followed by
/// `=fallback`, the text to print when the bound is out of range.
pub open spec fn spec_user_bounds_from(s: Seq<u8>) -> Result<UserBoundsView, ErrorView> {
    if s.len() == 0 {
        Err(ErrorView::EmptyField)
    } else if s == seq![58u8] {
        Err(ErrorView::NoNumbersNextToColon)
    } else {
        let body = match first_index_of(s, 61u8) {
            Some(i) => s.subrange(0, i),
            None => s,
        };
        let fallback = match first_index_of(s, 61u8) {
            Some(i) => Some(s.subrange(i + 1, s.len() as int)),
            None => None,
        };
        match spec_sides_from(body) {
            Err(e) => Err(e),
            Ok((l, r)) => {
                if sides_out_of_order(l, r) {
                    Err(ErrorView::LeftGreaterThanRight)
                } else {
                    Ok(UserBoundsView { l, r, is_last: false, fallback_oob: fallback })
                }
            },
        }
    }
}

/// The range of part indices (0-indexed, right excluded) that a bound selects
/// among `n` parts. A right side beyond the parts is clamped to the last part.
pub open spec fn spec_try_into_range(l: Side, r: Side, n: int) -> Result<(int, int), ErrorView> {
    let r_value = if r.value < n - 1 { r.value as int } else { n - 1 };
    if l.value >= n {
        Err(ErrorView::OutOfBounds(l))
    } else {
        let start = if l.is_negative { n - l.value - 1 } else { l.value as int };
        let end = if r.is_negative { n - r_value } else { r_value + 1 };
        if end <= start {
            Err(ErrorView::LeftGreaterThanRight)
        } else {
            Ok((start, end))
        }
    }
}

/// The first and last 0-indexed field that `unpack` expands a bound into.
pub open spec fn unpack_start(l: Side, n: int) -> int {
    if l.is_negative {
        n - l.value - 1
    } else {
        l.value as int
    }
}

pub open spec fn unpack_end(r: Side, n: int) -> int {
    if r.value == usize::MAX {
        n - 1
    } else if r.is_negative {
        n - r.value - 1
    } else {
        r.value as int
    }
}

/// A bound expanded into one single-field bound per field it covers.
pub open spec fn spec_unpack(l: Side, r: Side, n: int) -> Seq<UserBoundsView> {
    let start = unpack_start(l, n);
    let end = unpack_end(r, n);
    if end < start {
        Seq::empty()
    } else {
        Seq::new((end - start + 1) as nat, |k: int| single_field(start + k))
    }
}

/// The sides that `unpack` can resolve against `n` fields.
pub open spec fn unpack_ok(l: Side, r: Side, n: int) -> bool {
    &&& n > 0
    &&& (l.is_negative ==> l.value < n)
    &&& (r.is_negative && r.value != usize::MAX ==> r.value < n)
}

/// The ranges of `[0, n)` left out by `[start, end)`.
pub open spec fn spec_complement_std_range(n: int, start: int, end: int) -> Seq<(int, int)> {
    if start == 0 && end == n {
        Seq::empty()
    } else if start == 0 {
        seq![(end, n)]
    } else if end == n {
        seq![(0, start)]
    } else {
        seq![(0, start), (end, n)]
    }
}

/// The bound (positive sides) that selects the parts `[start, end)`.
pub open spec fn range_bound(r: (int, int)) -> UserBoundsView {
    plain_bound(
        Side { value: r.0 as usize, is_negative: false },
        Side { value: (r.1 - 1) as usize, is_negative: false },
    )
}

/// The complement of a bound among `n` parts, as bounds.
pub open spec fn spec_complement(l: Side, r: Side, n: int) -> Result<Seq<UserBoundsView>, ErrorView> {
    match spec_try_into_range(l, r, n) {
        Err(e) => Err(e),
        Ok((start, end)) => Ok(
            spec_complement_std_range(n, start, end).map_values(|x: (int, int)| range_bound(x)),
        ),
    }
}

/// The ranges of `[0, n)` that `[r.start, r.end)` leaves out.
pub fn complement_std_range(parts_length: usize, r: &Range<usize>) -> (v: Vec<Range<usize>>)
    requires
        r.start < r.end <= parts_length,
    ensures
        v@.len() == spec_complement_std_range(parts_length as int, r.start as int, r.end as int).len(),
        forall|i: int|
            0 <= i < v@.len() ==> ((#[trigger] v@[i]).start as int, v@[i].end as int)
                == spec_complement_std_range(parts_length as int, r.start as int, r.end as int)[i],
{
    let mut v: Vec<Range<usize>> = Vec::new();
    if r.start == 0 && r.end == parts_length {
    } else if r.start == 0 {
        v.push(Range { start: r.end, end: parts_length });
    } else if r.end == parts_length {
        v.push(Range { start: 0, end: r.start });
    } else {
        v.push(Range { start: 0, end: r.start });
        v.push(Range { start: r.end, end: parts_length });
    }
    v
}

impl UserBounds {
    /// A bound from `l` to `r`, not marked last, without fallback.
    pub fn new(l: Side, r: Side) -> (b: UserBounds)
        ensures
            b@ == plain_bound(l, r),
    {
        UserBounds { l, r, is_last: false, fallback_oob: None }
    }

    /// A bound from `l` to `r` with the given fallback.
    pub fn with_fallback(l: Side, r: Side, fallback_oob: Option<Vec<u8>>) -> (b: UserBounds)
        ensures
            b@ == (UserBoundsView { l, r, is_last: false, fallback_oob: opt_bytes_view(fallback_oob) }),
    {
        UserBounds { l, r, is_last: false, fallback_oob }
    }

    pub fn l(&self) -> (s: &Side)
        ensures
            *s == self.l,
    {
        &self.l
    }

    pub fn r(&self) -> (s: &Side)
        ensures
            *s == self.r,
    {
        &self.r
    }

    pub fn is_last(&self) -> (b: bool)
        ensures
            b == self.is_last,
    {
        self.is_last
    }

    pub fn set_is_last(&mut self, is_last: bool)
        ensures
            final(self)@ == (UserBoundsView { is_last, ..old(self)@ }),
    {
        self.is_last = is_last;
    }

    pub fn fallback_oob(&self) -> (f: &Option<Vec<u8>>)
        ensures
            *f == self.fallback_oob,
    {
        &self.fallback_oob
    }

    /// A copy of this bound.
    pub fn duplicate(&self) -> (b: UserBounds)
        ensures
            b@ == self@,
    {
        let fallback_oob = match &self.fallback_oob {
            Some(f) => Some(slice_to_vec(f.as_slice())),
            None => None,
        };
        UserBounds { l: self.l, r: self.r, is_last: self.is_last, fallback_oob }
    }

    /// Parse a bound written as text (see `spec_user_bounds_from`).
    pub fn from_str(s: &str) -> (r: Result<UserBounds, TucError>)
        ensures
            res_view(r) == spec_user_bounds_from(s.spec_bytes()),
    {
        Self::from_bytes(s.as_bytes())
    }

    /// Parse a bound written as bytes (see `spec_user_bounds_from`).
    pub fn from_bytes(s: &[u8]) -> (r: Result<UserBounds, TucError>)
        ensures
            res_view(r) == spec_user_bounds_from(s@),
    {
        if s.len() == 0 {
            return Err(TucError::EmptyField);
        }
        if s.len() == 1 && s[0] == 58u8 {
            proof {
                assert(s@ =~= seq![58u8]);
            }
            return Err(TucError::NoNumbersNextToColon);
        }
        proof {
            assert(s@ != seq![58u8]) by {
                if s@ == seq![58u8] {
                    assert(s@.len() == 1 && s@[0] == 58u8);
                }
            }
        }
        let (body, fallback_oob): (&[u8], Option<Vec<u8>>) = match find_byte(s, 61u8) {
            Some(i) => (&s[0..i], Some(slice_to_vec(&s[i + 1..s.len()]))),
            None => (s, None),
        };
        let (l, r) = match sides_from_bytes(body) {
            Ok(p) => p,
            Err(e) => return Err(e),
        };
        if l != r {
            if !l.is_negative && !r.is_negative && r.value < l.value {
                return Err(TucError::LeftGreaterThanRight);
            } else if l.is_negative && r.is_negative && l.value < r.value {
                return Err(TucError::LeftGreaterThanRight);
            }
        }
        Ok(UserBounds { l, r, is_last: false, fallback_oob })
    }
}

impl UserBounds {
    /// Check whether the 0-indexed positive field `idx` lies within the bound.
    /// A bound with a negative side cannot tell without knowing how many
    /// fields there are, so it answers with an error.
    pub fn matches(&self, idx: usize) -> (r: Result<bool, TucError>)
        ensures
            match r {
                Ok(b) => !self.l.is_negative && !self.r.is_negative && b == (self.l.value <= idx
                    && idx <= self.r.value),
                Err(e) => (self.l.is_negative || self.r.is_negative) && e@ == ErrorView::BoundOutOfBounds(
                    self.l,
                    self.r,
                ),
            },
    {
        if self.l.is_negative || self.r.is_negative {
            return Err(TucError::BoundOutOfBounds(self.l, self.r));
        }
        Ok(self.l.value <= idx && idx <= self.r.value)
    }

    /// The range of part indices (0-indexed, right excluded) that this bound
    /// selects among `parts_length` parts.
    ///
    /// e.g. `1:2` over 5 parts is `0..2`, `1:` over 5 parts is `0..5`.
    pub fn try_into_range(&self, parts_length: usize) -> (r: Result<Range<usize>, TucError>)
        requires
            parts_length > 0,
        ensures
            match r {
                Ok(rg) => spec_try_into_range(self.l, self.r, parts_length as int) == Ok::<
                    (int, int),
                    ErrorView,
                >((rg.start as int, rg.end as int)),
                Err(e) => spec_try_into_range(self.l, self.r, parts_length as int) == Err::<
                    (int, int),
                    ErrorView,
                >(e@),
            },
            r matches Ok(rg) ==> rg.start < rg.end <= parts_length,
    {
        let r_value = if self.r.value < parts_length - 1 {
            self.r.value
        } else {
            parts_length - 1
        };
        if self.l.value >= parts_length {
            return Err(TucError::OutOfBounds(self.l));
        }
        let start = if self.l.is_negative {
            parts_length - self.l.value - 1
        } else {
            self.l.value
        };
        let end = if self.r.is_negative {
            parts_length - r_value
        } else {
            r_value + 1
        };
        if end <= start {
            return Err(TucError::LeftGreaterThanRight);
        }
        Ok(Range { start, end })
    }

    /// Expand this bound into single-field bounds, one per field it covers
    /// among `num_fields` fields.
    pub fn unpack(&self, num_fields: usize) -> (v: Vec<UserBounds>)
        requires
            unpack_ok(self.l, self.r, num_fields as int),
        ensures
            v@.len() == spec_unpack(self.l, self.r, num_fields as int).len(),
            forall|i: int|
                0 <= i < v@.len() ==> (#[trigger] v@[i])@ == spec_unpack(
                    self.l,
                    self.r,
                    num_fields as int,
                )[i],
    {
        let mut bounds: Vec<UserBounds> = Vec::new();
        let start: usize = if self.l.is_negative {
            num_fields - self.l.value - 1
        } else {
            self.l.value
        };
        let end: usize = if self.r.value == usize::MAX {
            num_fields - 1
        } else if self.r.is_negative {
            num_fields - self.r.value - 1
        } else {
            self.r.value
        };
        if end < start {
            return bounds;
        }
        let ghost target = spec_unpack(self.l, self.r, num_fields as int);
        let mut i: usize = start;
        while i <= end
            invariant
                start <= i <= end + 1,
                end < usize::MAX,
                start == unpack_start(self.l, num_fields as int),
                end == unpack_end(self.r, num_fields as int),
                target == spec_unpack(self.l, self.r, num_fields as int),
                target.len() == end - start + 1,
                bounds@.len() == i - start,
                forall|k: int| 0 <= k < bounds@.len() ==> (#[trigger] bounds@[k])@ == target[k],
            decreases end + 1 - i,
        {
            bounds.push(UserBounds::new(Side::with_pos_value(i), Side::with_pos_value(i)));
            i = i + 1;
        }
        bounds
    }

    /// The complement of this bound among `num_fields` parts, as bounds.
    pub fn complement(&self, num_fields: usize) -> (v: Result<Vec<UserBounds>, TucError>)
        requires
            num_fields > 0,
        ensures
            match v {
                Ok(bs) => spec_complement(self.l, self.r, num_fields as int) matches Ok(t) && bs@.len()
                    == t.len() && forall|i: int| 0 <= i < t.len() ==> (#[trigger] bs@[i])@ == t[i],
                Err(e) => spec_complement(self.l, self.r, num_fields as int) == Err::<
                    Seq<UserBoundsView>,
                    ErrorView,
                >(e@),
            },
    {
        let r = self.try_into_range(num_fields)?;
        let ranges = complement_std_range(num_fields, &r);
        let ghost t = spec_complement_std_range(num_fields as int, r.start as int, r.end as int);
        let mut out: Vec<UserBounds> = Vec::new();
        let mut i: usize = 0;
        while i < ranges.len()
            invariant
                i <= ranges@.len(),
                ranges@.len() == t.len(),
                t.len() <= 2,
                forall|k: int|
                    0 <= k < ranges@.len() ==> ((#[trigger] ranges@[k]).start as int, ranges@[k].end as int)
                        == t[k],
                forall|k: int| 0 <= k < t.len() ==> 0 <= (#[trigger] t[k]).0 < t[k].1 <= num_fields,
                out@.len() == i,
                forall|k: int| 0 <= k < i ==> (#[trigger] out@[k])@ == range_bound(t[k]),
            decreases ranges.len() - i,
        {
            let x = &ranges[i];
            out.push(UserBounds::new(Side::with_pos_value(x.start), Side::with_pos_value(x.end - 1)));
            i = i + 1;
        }
        Ok(out)
    }
}

/// The two sides written in `s` (see `spec_sides_from`).
fn sides_from_bytes(s: &[u8]) -> (r: Result<(Side, Side), TucError>)
    ensures
        match r {
            Ok(p) => spec_sides_from(s@) == Ok::<(Side, Side), ErrorView>(p),
            Err(e) => spec_sides_from(s@) == Err::<(Side, Side), ErrorView>(e@),
        },
{
    match find_byte(s, 58u8) {
        None => {
            let side = Side::from_bytes(s, true)?;
            Ok((side, side))
        },
        Some(i) => {
            if i == 0 {
                let r = Side::from_bytes(&s[1..s.len()], false)?;
                Ok((Side::new_inf_left(), r))
            } else if i == s.len() - 1 {
                let l = Side::from_bytes(&s[0..i], true)?;
                Ok((l, Side::new_inf_right()))
            } else {
                let l = Side::from_bytes(&s[0..i], true)?;
                let r = Side::from_bytes(&s[i + 1..s.len()], false)?;
                Ok((l, r))
            }
        },
    }
}

} // verus!
