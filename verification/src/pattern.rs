use regex::bytes::Regex;
use vstd::prelude::*;

verus! {

#[verifier::external_type_specification]
#[verifier::external_body]
pub struct ExRegex(regex::bytes::Regex);

/// Whether `pattern` is accepted by the regular expression compiler.
pub uninterp spec fn regex_compiles(pattern: Seq<char>) -> bool;

/// The text of the error the regular expression compiler gives for `pattern`.
pub uninterp spec fn regex_error_text(pattern: Seq<char>) -> Seq<char>;

/// The matches (start, end) of `pattern` in `haystack`, left to right.
pub uninterp spec fn regex_find(pattern: Seq<char>, haystack: Seq<u8>) -> Seq<(int, int)>;

/// `haystack` with every match of `pattern` replaced by `rep`.
pub uninterp spec fn regex_replace(pattern: Seq<char>, haystack: Seq<u8>, rep: Seq<u8>) -> Seq<u8>;

/// Matches lie in the haystack, in order, without overlap.
pub open spec fn matches_wf(ms: Seq<(int, int)>, len: int) -> bool {
    &&& forall|k: int| 0 <= k < ms.len() ==> 0 <= (#[trigger] ms[k]).0 <= ms[k].1 <= len
    &&& forall|k: int| 0 < k < ms.len() ==> ms[k - 1].1 <= (#[trigger] ms[k]).0
}

/// Pairs of positions as mathematical integers.
pub open spec fn pairs_view(v: Seq<(usize, usize)>) -> Seq<(int, int)> {
    v.map_values(|p: (usize, usize)| (p.0 as int, p.1 as int))
}

/// `h` from `last` on, with each match of `ms` replaced by `rep`.
pub open spec fn splice_matches(h: Seq<u8>, ms: Seq<(int, int)>, rep: Seq<u8>, last: int) -> Seq<u8>
    decreases ms.len(),
{
    if ms.len() == 0 {
        h.subrange(last, h.len() as int)
    } else {
        h.subrange(last, ms[0].0) + rep + splice_matches(h, ms.drop_first(), rep, ms[0].1)
    }
}

/// A compiled regular expression, with the pattern it was compiled from.
#[derive(Debug)]
pub struct CompiledRegex {
    re: Regex,
    pattern: String,
}

impl View for CompiledRegex {
    type V = Seq<char>;

    closed spec fn view(&self) -> Seq<char> {
        self.pattern@
    }
}

/// Compile `pattern` (`regex::bytes::Regex::new`). Whether it compiles, and
/// the error text when it does not, depend on the pattern alone.
#[verifier::external_body]
fn compile(pattern: &str) -> (r: Result<Regex, String>)
    ensures
        r is Ok <==> regex_compiles(pattern@),
        r matches Err(m) ==> m@ == regex_error_text(pattern@),
{
    Regex::new(pattern).map_err(|e| e.to_string())
}

/// `a` followed by `b` (`String + &str`).
#[verifier::external_body]
pub(crate) fn string_concat(a: String, b: &str) -> (r: String)
    ensures
        r@ == a@ + b@,
{
    a + b
}

impl CompiledRegex {
    /// Compile `pattern`; the error is the compiler's message.
    pub fn new(pattern: &str) -> (r: Result<CompiledRegex, String>)
        ensures
            r is Ok <==> regex_compiles(pattern@),
            r matches Ok(c) ==> c@ == pattern@,
            r matches Err(m) ==> m@ == regex_error_text(pattern@),
    {
        match compile(pattern) {
            Ok(re) => Ok(CompiledRegex { re, pattern: pattern.to_owned() }),
            Err(m) => Err(m),
        }
    }

    /// The pattern this regular expression was compiled from.
    pub fn as_str(&self) -> (s: &str)
        ensures
            s@ == self@,
    {
        self.pattern.as_str()
    }

    /// A copy of this regular expression (`Regex::clone`).
    #[verifier::external_body]
    pub(crate) fn duplicate(&self) -> (r: CompiledRegex)
        ensures
            r@ == self@,
    {
        CompiledRegex { re: self.re.clone(), pattern: self.pattern.clone() }
    }

    /// The matches (start, end) of this regular expression in `haystack`
    /// (`Regex::find_iter`). The crate documents "successive non-overlapping
    /// matches"; they lie in the haystack, left to right. Values of this type
    /// are only built by `new`, so `re` is compiled from `pattern`.
    #[verifier::external_body]
    pub(crate) fn find_all(&self, haystack: &[u8]) -> (r: Vec<(usize, usize)>)
        ensures
            pairs_view(r@) == regex_find(self@, haystack@),
            matches_wf(pairs_view(r@), haystack@.len() as int),
    {
        self.re.find_iter(haystack).map(|m| (m.start(), m.end())).collect()
    }

    /// `haystack` with every match replaced by `rep` (`Regex::replace_all`).
    /// The crate expands `$name` references in `rep`; when `rep` holds no
    /// `$`, its source copies the text between the matches that `find_iter`
    /// yields and writes `rep` in place of each match.
    #[verifier::external_body]
    pub(crate) fn replace_all(&self, haystack: &[u8], rep: &[u8]) -> (r: Vec<u8>)
        ensures
            r@ == regex_replace(self@, haystack@, rep@),
            !rep@.contains(36u8) ==> r@ == splice_matches(
                haystack@,
                regex_find(self@, haystack@),
                rep@,
                0,
            ),
    {
        self.re.replace_all(haystack, rep).into_owned()
    }
}

} // verus!
