use vstd::prelude::*;
use vstd::slice::slice_to_vec;
use vstd::string::StringSliceAdditionalSpecFns;

verus! {

/// The ASCII code of `c` when it is a decimal digit.
pub open spec fn is_digit(b: u8) -> bool {
    48 <= b && b <= 57
}

/// Every byte of `s` is a decimal digit.
pub open spec fn all_digits(s: Seq<u8>) -> bool {
    forall|i: int| 0 <= i < s.len() ==> is_digit(#[trigger] s[i])
}

/// The value of a run of decimal digits, most significant first.
pub open spec fn digits_value(s: Seq<u8>) -> nat
    decreases s.len(),
{
    if s.len() == 0 {
        0
    } else {
        (digits_value(s.drop_last()) * 10 + (s.last() - 48)) as nat
    }
}

/// Text accepted as a signed integer: an optional `+` or `-`, then one or more
/// decimal digits. The result is the sign and the magnitude.
pub open spec fn parse_signed(s: Seq<u8>) -> Option<(bool, nat)> {
    if s.len() > 0 && (s[0] == 45u8 || s[0] == 43u8) {
        let rest = s.drop_first();
        if rest.len() > 0 && all_digits(rest) {
            Some((s[0] == 45u8, digits_value(rest)))
        } else {
            None
        }
    } else if s.len() > 0 && all_digits(s) {
        Some((false, digits_value(s)))
    } else {
        None
    }
}

/// The magnitude of a number accepted as a signed machine-size integer.
pub open spec fn fits_isize(neg: bool, magnitude: nat) -> bool {
    if neg {
        magnitude <= isize::MAX + 1
    } else {
        magnitude <= isize::MAX
    }
}

proof fn lemma_digits_value_push(s: Seq<u8>, d: u8)
    requires
        is_digit(d),
    ensures
        digits_value(s.push(d)) == digits_value(s) * 10 + (d - 48),
{
    assert(s.push(d).drop_last() =~= s);
}

/// A prefix of a digit run never has a larger value than the whole run.
proof fn lemma_digits_value_prefix(s: Seq<u8>, k: int)
    requires
        0 <= k <= s.len(),
        all_digits(s),
    ensures
        digits_value(s.subrange(0, k)) <= digits_value(s),
    decreases s.len() - k,
{
    if k < s.len() {
        lemma_digits_value_prefix(s, k + 1);
        let p = s.subrange(0, k + 1);
        assert(p.drop_last() =~= s.subrange(0, k));
        assert(is_digit(s[k]));
        assert(digits_value(p) == digits_value(p.drop_last()) * 10 + (p.last() - 48));
    } else {
        assert(s.subrange(0, k) =~= s);
    }
}

/// One side of a bound. `value` is 0-indexed; a negative side counts from the
/// last field (`value` 0 is the last field). A positive side whose value is
/// `usize::MAX` stands for "up to the last field".
#[derive(Debug, Clone, Copy, PartialEq, Eq, Structural)]
pub struct Side {
    pub value: usize,
    pub is_negative: bool,
}

/// Errors raised while parsing or applying bounds.
#[derive(Debug)]
pub enum TucError {
    /// A side of a bound is not a number.
    NotANumber(Vec<u8>),
    /// A side of a bound is zero (fields are 1-indexed).
    ZeroField,
    /// A bound is empty.
    EmptyField,
    /// A bound is made of a lone colon.
    NoNumbersNextToColon,
    /// The left side of a bound comes after its right side.
    LeftGreaterThanRight,
    /// A `}` closes a format group that was never opened.
    MissingOpeningParenthesis,
    /// A `{` opens a format group that is never closed.
    MissingClosingParenthesis,
    /// A bound list holds no bound.
    EmptyBoundsList,
    /// A side points outside the available parts.
    OutOfBounds(Side),
    /// A bound (its two sides) points outside the available parts.
    BoundOutOfBounds(Side, Side),
    /// The complement of the bounds holds nothing.
    EmptyComplement,
    /// A field plan was asked for with no index at all.
    NoIndices,
    /// The input is not UTF-8; the decoder's message.
    InvalidUtf8(String),
    /// A line read as text is not UTF-8.
    StreamNotUtf8,
}

/// The spec-level image of a `TucError`.
pub enum ErrorView {
    NotANumber(Seq<u8>),
    ZeroField,
    EmptyField,
    NoNumbersNextToColon,
    LeftGreaterThanRight,
    MissingOpeningParenthesis,
    MissingClosingParenthesis,
    EmptyBoundsList,
    OutOfBounds(Side),
    BoundOutOfBounds(Side, Side),
    EmptyComplement,
    NoIndices,
    InvalidUtf8(Seq<char>),
    StreamNotUtf8,
}

impl View for TucError {
    type V = ErrorView;

    open spec fn view(&self) -> ErrorView {
        match self {
            TucError::NotANumber(t) => ErrorView::NotANumber(t@),
            TucError::ZeroField => ErrorView::ZeroField,
            TucError::EmptyField => ErrorView::EmptyField,
            TucError::NoNumbersNextToColon => ErrorView::NoNumbersNextToColon,
            TucError::LeftGreaterThanRight => ErrorView::LeftGreaterThanRight,
            TucError::MissingOpeningParenthesis => ErrorView::MissingOpeningParenthesis,
            TucError::MissingClosingParenthesis => ErrorView::MissingClosingParenthesis,
            TucError::EmptyBoundsList => ErrorView::EmptyBoundsList,
            TucError::OutOfBounds(s) => ErrorView::OutOfBounds(*s),
            TucError::BoundOutOfBounds(l, r) => ErrorView::BoundOutOfBounds(*l, *r),
            TucError::EmptyComplement => ErrorView::EmptyComplement,
            TucError::NoIndices => ErrorView::NoIndices,
            TucError::InvalidUtf8(m) => ErrorView::InvalidUtf8(m@),
            TucError::StreamNotUtf8 => ErrorView::StreamNotUtf8,
        }
    }
}

impl View for Side {
    type V = Side;

    open spec fn view(&self) -> Side {
        *self
    }
}

/// The spec-level image of a result whose error is a `TucError`.
pub open spec fn res_view<T: View>(r: Result<T, TucError>) -> Result<T::V, ErrorView> {
    match r {
        Ok(v) => Ok(v@),
        Err(e) => Err(e@),
    }
}

/// What a side written as `s` stands for. An empty text is the first field
/// on the left of a range and "up to the last field" on its right.
pub open spec fn spec_side_from(s: Seq<u8>, is_left_bound: bool) -> Result<Side, ErrorView> {
    if s.len() == 0 {
        Ok(Side { value: if is_left_bound { 0 } else { usize::MAX }, is_negative: false })
    } else {
        match parse_signed(s) {
            Some((neg, m)) => {
                if !fits_isize(neg, m) {
                    Err(ErrorView::NotANumber(s))
                } else if m == 0 {
                    Err(ErrorView::ZeroField)
                } else {
                    Ok(Side { value: (m - 1) as usize, is_negative: neg })
                }
            },
            None => Err(ErrorView::NotANumber(s)),
        }
    }
}

/// Parse an optionally signed run of decimal digits that fits a machine-size
/// signed integer, giving its sign and magnitude.
pub fn parse_signed_bytes(s: &[u8]) -> (r: Option<(bool, usize)>)
    ensures
        match r {
            Some((neg, m)) => parse_signed(s@) == Some((neg, m as nat)) && fits_isize(neg, m as nat),
            None => match parse_signed(s@) {
                Some((neg, m)) => !fits_isize(neg, m),
                None => true,
            },
        },
{
    let len = s.len();
    if len == 0 {
        return None;
    }
    let neg = s[0] == 45u8;
    let start: usize = if s[0] == 45u8 || s[0] == 43u8 { 1 } else { 0 };
    if start == len {
        return None;
    }
    let limit: usize = if neg { (isize::MAX as usize) + 1 } else { isize::MAX as usize };
    let ghost digits = s@.subrange(start as int, len as int);
    let mut acc: usize = 0;
    let mut i: usize = start;
    while i < len
        invariant
            start <= i <= len,
            len == s@.len(),
            start == 0 || start == 1,
            start < len,
            digits == s@.subrange(start as int, len as int),
            neg == (s@[0] == 45u8),
            start == 1 <==> (s@[0] == 45u8 || s@[0] == 43u8),
            limit == if neg { isize::MAX + 1 } else { isize::MAX as int },
            all_digits(s@.subrange(start as int, i as int)),
            acc == digits_value(s@.subrange(start as int, i as int)),
            acc <= limit,
        decreases len - i,
    {
        let b = s[i];
        if b < 48u8 || b > 57u8 {
            proof {
                assert(!is_digit(digits[i - start]));
            }
            return None;
        }
        let d: usize = (b - 48u8) as usize;
        proof {
            let pre = s@.subrange(start as int, i as int);
            assert(s@.subrange(start as int, i + 1) =~= pre.push(b));
            lemma_digits_value_push(pre, b);
        }
        if acc > (limit - d) / 10 {
            proof {
                assert(acc * 10 + d > limit) by (nonlinear_arith)
                    requires
                        acc > (limit - d) / 10,
                        d <= 9,
                        limit >= 9,
                ;
                if start == 1 {
                    assert(digits =~= s@.drop_first());
                } else {
                    assert(digits =~= s@);
                }
                if all_digits(digits) {
                    assert(digits.subrange(0, i + 1 - start) =~= s@.subrange(start as int, i + 1));
                    lemma_digits_value_prefix(digits, i + 1 - start);
                }
            }
            return None;
        }
        proof {
            assert(acc * 10 + d <= limit) by (nonlinear_arith)
                requires
                    acc <= (limit - d) / 10,
                    d <= 9,
                    limit >= 9,
            ;
        }
        acc = acc * 10 + d;
        i = i + 1;
    }
    proof {
        assert(s@.subrange(start as int, len as int) == digits);
        if start == 1 {
            assert(digits =~= s@.drop_first());
        } else {
            assert(digits =~= s@);
        }
    }
    Some((neg, acc))
}

impl Side {
    /// A positive side, 0-indexed.
    pub fn with_pos_value(value0idx: usize) -> (s: Side)
        ensures
            s.value == value0idx,
            !s.is_negative,
    {
        Side { value: value0idx, is_negative: false }
    }

    /// A negative side, 0-indexed from the end (0 is the last field).
    pub fn with_neg_value(value0idx: usize) -> (s: Side)
        ensures
            s.value == value0idx,
            s.is_negative,
    {
        Side { value: value0idx, is_negative: true }
    }

    /// The positive side that stands for "up to the last field".
    pub fn with_pos_inf() -> (s: Side)
        ensures
            s.value == usize::MAX,
            !s.is_negative,
    {
        Side { value: Self::max_right(), is_negative: false }
    }

    /// The left side used when a range has no left number (the first field).
    pub fn new_inf_left() -> (s: Side)
        ensures
            s.value == 0,
            !s.is_negative,
    {
        Side { value: 0, is_negative: false }
    }

    /// The right side used when a range has no right number.
    pub fn new_inf_right() -> (s: Side)
        ensures
            s.value == usize::MAX,
            !s.is_negative,
    {
        Self::with_pos_inf()
    }

    pub fn value_unchecked(&self) -> (v: usize)
        ensures
            v == self.value,
    {
        self.value
    }

    pub fn value(&self) -> (v: (bool, usize))
        ensures
            v == (self.is_negative, self.value),
    {
        (self.is_negative, self.value)
    }

    pub fn max_right() -> (v: usize)
        ensures
            v == usize::MAX,
    {
        usize::MAX
    }

    pub fn is_negative(&self) -> (b: bool)
        ensures
            b == self.is_negative,
    {
        self.is_negative
    }

    /// Parse the left side of a bound: an empty text is the first field.
    pub fn from_str_left_bound(s: &str) -> (r: Result<Side, TucError>)
        ensures
            res_view(r) == spec_side_from(s.spec_bytes(), true),
    {
        Self::from_bytes(s.as_bytes(), true)
    }

    /// Parse the right side of a bound: an empty text is "up to the last field".
    pub fn from_str_right_bound(s: &str) -> (r: Result<Side, TucError>)
        ensures
            res_view(r) == spec_side_from(s.spec_bytes(), false),
    {
        Self::from_bytes(s.as_bytes(), false)
    }

    /// Parse a side written as bytes: a non-zero integer, 1-indexed, negative
    /// when counted from the last field.
    pub fn from_bytes(s: &[u8], is_left_bound: bool) -> (r: Result<Side, TucError>)
        ensures
            res_view(r) == spec_side_from(s@, is_left_bound),
    {
        if s.len() == 0 {
            return Ok(
                if is_left_bound {
                    Side::new_inf_left()
                } else {
                    Side::new_inf_right()
                },
            );
        }
        match parse_signed_bytes(s) {
            None => Err(TucError::NotANumber(slice_to_vec(s))),
            Some((neg, m)) => {
                if m == 0 {
                    Err(TucError::ZeroField)
                } else {
                    Ok(Side { value: m - 1, is_negative: neg })
                }
            },
        }
    }
}

} // verus!
