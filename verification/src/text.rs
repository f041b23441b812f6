use crate::side::{ErrorView, Side, TucError};
use vstd::prelude::*;
use vstd::string::StringSliceAdditionalSpecFns;
use vstd::utf8::{decode_utf8, encode_utf8, valid_utf8};

verus! {

/// The decimal digits of `n`, most significant first, without leading zeros.
pub open spec fn decimal(n: nat) -> Seq<u8>
    decreases n,
{
    if n < 10 {
        seq![(48 + n) as u8]
    } else {
        decimal(n / 10).push((48 + n % 10) as u8)
    }
}

/// Render `n` in decimal.
pub fn decimal_bytes(n: u128) -> (r: Vec<u8>)
    ensures
        r@ == decimal(n as nat),
    decreases n,
{
    let digit: u8 = (48 + n % 10) as u8;
    if n < 10 {
        let mut v: Vec<u8> = Vec::new();
        v.push(digit);
        v
    } else {
        let mut v = decimal_bytes(n / 10);
        v.push(digit);
        v
    }
}

/// How a side is written back: 1-indexed, with a leading `-` when negative.
pub open spec fn side_text(s: Side) -> Seq<u8> {
    if s.is_negative {
        seq![45u8] + decimal(s.value as nat + 1)
    } else {
        decimal(s.value as nat + 1)
    }
}

/// Render a side as text.
pub fn side_bytes(s: Side) -> (r: Vec<u8>)
    ensures
        r@ == side_text(s),
{
    let digits = decimal_bytes((s.value as u128) + 1);
    if s.is_negative {
        let mut v: Vec<u8> = Vec::new();
        v.push(45u8);
        append_bytes(&mut v, digits.as_slice());
        v
    } else {
        digits
    }
}

/// How a bound made of two sides is written back: a single side when both
/// are equal, `l:-1` when the right side is open.
pub open spec fn bound_text(l: Side, r: Side) -> Seq<u8> {
    if l == r {
        side_text(l)
    } else if r.value == usize::MAX {
        side_text(l) + seq![58u8, 45u8, 49u8]
    } else {
        side_text(l) + seq![58u8] + side_text(r)
    }
}

/// Render a bound made of two sides as text.
pub fn bound_bytes(l: Side, r: Side) -> (t: Vec<u8>)
    ensures
        t@ == bound_text(l, r),
{
    let mut v = side_bytes(l);
    if l == r {
        return v;
    }
    v.push(58u8);
    if r.value == usize::MAX {
        v.push(45u8);
        v.push(49u8);
    } else {
        let rb = side_bytes(r);
        append_bytes(&mut v, rb.as_slice());
    }
    v
}

/// Append every byte of `src` to `dst`.
pub fn append_bytes(dst: &mut Vec<u8>, src: &[u8])
    ensures
        final(dst)@ == old(dst)@ + src@,
{
    let ghost start = dst@;
    let mut i: usize = 0;
    while i < src.len()
        invariant
            i <= src@.len(),
            dst@ == start + src@.subrange(0, i as int),
        decreases src.len() - i,
    {
        dst.push(src[i]);
        i = i + 1;
        proof {
            assert(dst@ =~= start + src@.subrange(0, i as int));
        }
    }
    proof {
        assert(src@.subrange(0, src@.len() as int) =~= src@);
    }
}

/// The position of the first occurrence of `b` in `s`.
pub open spec fn first_index_of(s: Seq<u8>, b: u8) -> Option<int> {
    if exists|i: int| is_first_index(s, b, i) {
        Some(choose|i: int| is_first_index(s, b, i))
    } else {
        None
    }
}

/// `i` is where `b` first occurs in `s`.
pub open spec fn is_first_index(s: Seq<u8>, b: u8, i: int) -> bool {
    &&& 0 <= i < s.len()
    &&& s[i] == b
    &&& forall|j: int| 0 <= j < i ==> s[j] != b
}

pub(crate) proof fn lemma_first_index_unique(s: Seq<u8>, b: u8, i: int, k: int)
    requires
        is_first_index(s, b, i),
        is_first_index(s, b, k),
    ensures
        i == k,
{
    if i < k {
        assert(s[i] != b);
    } else if k < i {
        assert(s[k] != b);
    }
}

/// Find where `b` first occurs in `s`.
pub fn find_byte(s: &[u8], b: u8) -> (r: Option<usize>)
    ensures
        match r {
            Some(i) => first_index_of(s@, b) == Some(i as int),
            None => first_index_of(s@, b) is None,
        },
        r is None <==> forall|j: int| 0 <= j < s@.len() ==> s@[j] != b,
{
    let mut i: usize = 0;
    while i < s.len()
        invariant
            i <= s@.len(),
            forall|j: int| 0 <= j < i ==> s@[j] != b,
        decreases s.len() - i,
    {
        if s[i] == b {
            proof {
                assert(is_first_index(s@, b, i as int));
                let k = choose|k: int| is_first_index(s@, b, k);
                lemma_first_index_unique(s@, b, i as int, k);
            }
            return Some(i);
        }
        i = i + 1;
    }
    proof {
        assert(!exists|k: int| is_first_index(s@, b, k));
    }
    None
}

/// The text that `String::from_utf8_lossy` reads from `b`.
pub uninterp spec fn lossy_utf8(b: Seq<u8>) -> Seq<char>;

/// A text built from bytes, read as UTF-8 (`String::from_utf8_lossy`): valid
/// UTF-8 is decoded as it is, invalid sequences become U+FFFD.
#[verifier::external_body]
pub(crate) fn string_from_bytes(b: &[u8]) -> (s: String)
    ensures
        s@ == lossy_utf8(b@),
        valid_utf8(b@) ==> s@ == decode_utf8(b@),
{
    String::from_utf8_lossy(b).into_owned()
}

/// The message of the error that `std::str::from_utf8` returns for `b`.
pub uninterp spec fn utf8_error_text(b: Seq<u8>) -> Seq<char>;

/// Check that `b` is UTF-8 (`std::str::from_utf8`, which fails exactly when
/// the bytes are not valid UTF-8); the error carries the decoder's message.
#[verifier::external_body]
pub(crate) fn check_utf8(b: &[u8]) -> (r: Result<(), String>)
    ensures
        r is Ok <==> valid_utf8(b@),
        r matches Err(m) ==> m@ == utf8_error_text(b@),
{
    match std::str::from_utf8(b) {
        Ok(_) => Ok(()),
        Err(e) => Err(e.to_string()),
    }
}

/// A character of the Unicode property White_Space (what `char::is_whitespace`
/// tests).
pub open spec fn is_white_space(c: char) -> bool {
    let v = c as u32;
    (9 <= v && v <= 13) || v == 32 || v == 0x85 || v == 0xA0 || v == 0x1680 || (0x2000 <= v && v
        <= 0x200A) || v == 0x2028 || v == 0x2029 || v == 0x202F || v == 0x205F || v == 0x3000
}

/// `s` without its leading white space.
pub open spec fn trim_start_ws(s: Seq<char>) -> Seq<char>
    decreases s.len(),
{
    if s.len() > 0 && is_white_space(s[0]) {
        trim_start_ws(s.drop_first())
    } else {
        s
    }
}

/// `s` without its trailing white space.
pub open spec fn trim_end_ws(s: Seq<char>) -> Seq<char>
    decreases s.len(),
{
    if s.len() > 0 && is_white_space(s.last()) {
        trim_end_ws(s.drop_last())
    } else {
        s
    }
}

/// `s` without leading and trailing white space (`str::trim`, whose
/// documentation defines white space by the Unicode property White_Space).
#[verifier::external_body]
pub(crate) fn str_trim(s: &str) -> (r: &str)
    ensures
        r@ == trim_end_ws(trim_start_ws(s@)),
{
    s.trim()
}

/// The message that tells what went wrong.
pub open spec fn error_message(e: ErrorView) -> Seq<u8> {
    match e {
        ErrorView::NotANumber(t) => "Not a number `".spec_bytes() + t + "`".spec_bytes(),
        ErrorView::ZeroField => "Zero is not a valid field".spec_bytes(),
        ErrorView::EmptyField => "Field format error: empty field".spec_bytes(),
        ErrorView::NoNumbersNextToColon => "Field format error, no numbers next to `:`".spec_bytes(),
        ErrorView::LeftGreaterThanRight => "Field left value cannot be greater than right value".spec_bytes(),
        ErrorView::MissingOpeningParenthesis => "Field format error: missing opening parenthesis".spec_bytes(),
        ErrorView::MissingClosingParenthesis => "Field format error: missing closing parenthesis".spec_bytes(),
        ErrorView::EmptyBoundsList => "UserBoundsList must contain at least one UserBounds".spec_bytes(),
        ErrorView::OutOfBounds(s) => "Out of bounds: ".spec_bytes() + side_text(s),
        ErrorView::BoundOutOfBounds(l, r) => "Out of bounds: ".spec_bytes() + bound_text(l, r),
        ErrorView::EmptyComplement => "the complement is empty".spec_bytes(),
        ErrorView::NoIndices => "No indices found in bounds".spec_bytes(),
        ErrorView::InvalidUtf8(m) => encode_utf8(m),
        ErrorView::StreamNotUtf8 => "stream did not contain valid UTF-8".spec_bytes(),
    }
}

impl TucError {
    /// The message that tells what went wrong, as bytes.
    pub fn message(&self) -> (m: Vec<u8>)
        ensures
            m@ == error_message(self@),
    {
        let mut v: Vec<u8> = Vec::new();
        match self {
            TucError::NotANumber(t) => {
                append_bytes(&mut v, "Not a number `".as_bytes());
                append_bytes(&mut v, t.as_slice());
                append_bytes(&mut v, "`".as_bytes());
            },
            TucError::ZeroField => append_bytes(&mut v, "Zero is not a valid field".as_bytes()),
            TucError::EmptyField => append_bytes(&mut v, "Field format error: empty field".as_bytes()),
            TucError::NoNumbersNextToColon => append_bytes(
                &mut v,
                "Field format error, no numbers next to `:`".as_bytes(),
            ),
            TucError::LeftGreaterThanRight => append_bytes(
                &mut v,
                "Field left value cannot be greater than right value".as_bytes(),
            ),
            TucError::MissingOpeningParenthesis => append_bytes(
                &mut v,
                "Field format error: missing opening parenthesis".as_bytes(),
            ),
            TucError::MissingClosingParenthesis => append_bytes(
                &mut v,
                "Field format error: missing closing parenthesis".as_bytes(),
            ),
            TucError::EmptyBoundsList => append_bytes(
                &mut v,
                "UserBoundsList must contain at least one UserBounds".as_bytes(),
            ),
            TucError::OutOfBounds(s) => {
                append_bytes(&mut v, "Out of bounds: ".as_bytes());
                let t = side_bytes(*s);
                append_bytes(&mut v, t.as_slice());
            },
            TucError::BoundOutOfBounds(l, r) => {
                append_bytes(&mut v, "Out of bounds: ".as_bytes());
                let t = bound_bytes(*l, *r);
                append_bytes(&mut v, t.as_slice());
            },
            TucError::EmptyComplement => append_bytes(&mut v, "the complement is empty".as_bytes()),
            TucError::NoIndices => append_bytes(&mut v, "No indices found in bounds".as_bytes()),
            TucError::InvalidUtf8(m) => append_bytes(&mut v, m.as_str().as_bytes()),
            TucError::StreamNotUtf8 => append_bytes(
                &mut v,
                "stream did not contain valid UTF-8".as_bytes(),
            ),
        }
        v
    }

    /// The message that tells what went wrong.
    pub fn to_string(&self) -> (s: String)
        ensures
            s@ == lossy_utf8(error_message(self@)),
            valid_utf8(error_message(self@)) ==> s@ == decode_utf8(error_message(self@)),
    {
        let m = self.message();
        string_from_bytes(m.as_slice())
    }
}

} // verus!
