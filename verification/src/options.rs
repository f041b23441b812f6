use crate::pattern::{regex_compiles, regex_error_text, string_concat, CompiledRegex};
use crate::side::Side;
use crate::text::{append_bytes, string_from_bytes};
use crate::userbounds::{plain_bound, BofView, BoundOrFiller, UserBounds};
use crate::userboundslist::{bofs_view, mark_last, spec_last_interesting_field, UserBoundsList};
use vstd::prelude::*;
use vstd::utf8::{decode_utf8, valid_utf8};

verus! {

/// What the bounds select.
#[derive(Debug, Clone, Copy, PartialEq, Eq, Structural)]
pub enum BoundsType {
    Bytes,
    Characters,
    Fields,
    Lines,
}

/// The byte that ends a line.
#[derive(Debug, Clone, Copy, PartialEq, Eq, Structural)]
pub enum EOL {
    Zero,
    Newline,
}

/// The byte value of a line terminator.
pub open spec fn spec_eol_byte(e: EOL) -> u8 {
    match e {
        EOL::Zero => 0u8,
        EOL::Newline => 10u8,
    }
}

impl EOL {
    /// The byte that ends a line.
    pub fn byte(self) -> (b: u8)
        ensures
            b == spec_eol_byte(self),
    {
        match self {
            EOL::Zero => 0u8,
            EOL::Newline => 10u8,
        }
    }
}

/// Which ends of a line lose their delimiters.
#[derive(Debug, Clone, Copy, PartialEq, Eq, Structural)]
pub enum Trim {
    Left,
    Right,
    Both,
}

/// The text of a trim kind: `l`, `r`, `b`, in either case.
pub open spec fn spec_trim_from(s: Seq<u8>) -> Option<Trim> {
    if s == seq![108u8] || s == seq![76u8] {
        Some(Trim::Left)
    } else if s == seq![114u8] || s == seq![82u8] {
        Some(Trim::Right)
    } else if s == seq![98u8] || s == seq![66u8] {
        Some(Trim::Both)
    } else {
        None
    }
}

impl Trim {
    /// Parse a trim kind; the error tells the valid values.
    pub fn from_bytes(s: &[u8]) -> (r: Result<Trim, String>)
        ensures
            match r {
                Ok(t) => spec_trim_from(s@) == Some(t),
                Err(m) => spec_trim_from(s@) is None && m@ == "Valid trim values are (l|L)eft, (r|R)ight, (b|B)oth"@,
            },
    {
        if s.len() == 1 {
            let c = s[0];
            proof {
                assert(s@ =~= seq![c]);
            }
            if c == 108u8 || c == 76u8 {
                return Ok(Trim::Left);
            } else if c == 114u8 || c == 82u8 {
                return Ok(Trim::Right);
            } else if c == 98u8 || c == 66u8 {
                return Ok(Trim::Both);
            }
        }
        Err("Valid trim values are (l|L)eft, (r|R)ight, (b|B)oth".to_owned())
    }
}

/// The regular expressions used as delimiter: as given, and matching one or
/// more consecutive delimiters.
#[derive(Debug)]
pub struct RegexBag {
    pub normal: CompiledRegex,
    pub greedy: CompiledRegex,
}

/// How the delimiter left inside a printed field is replaced.
#[derive(Debug, Clone, Copy, PartialEq, Eq, Structural)]
pub enum ReplaceDelimiterFn {
    /// Replace the matches of the regular expression.
    Regex,
    /// Replace the occurrences of the fixed delimiter.
    Fixed,
}

/// The options of a run, checked and derived from what the user asked.
#[derive(Debug)]
pub struct Opt {
    pub delimiter: Vec<u8>,
    pub eol: EOL,
    pub bounds: UserBoundsList,
    pub bounds_type: BoundsType,
    pub only_delimited: bool,
    pub greedy_delimiter: bool,
    pub compress_delimiter: bool,
    pub replace_delimiter: Option<Vec<u8>>,
    pub replace_delimiter_fn: Option<ReplaceDelimiterFn>,
    pub trim: Option<Trim>,
    pub complement: bool,
    pub join: bool,
    pub json: bool,
    pub fixed_memory: Option<usize>,
    pub fallback_oob: Option<Vec<u8>>,
    pub path: Option<String>,
    pub use_mmap: bool,
    pub read_to_end: bool,
    pub unpack: bool,
    pub regex_bag: Option<RegexBag>,
}

/// What the user asked for; it may not be a working configuration.
#[derive(Debug)]
pub struct Args {
    pub cut_by_fields: Option<UserBoundsList>,
    pub cut_by_characters: Option<UserBoundsList>,
    pub cut_by_bytes: Option<UserBoundsList>,
    pub cut_by_lines: Option<UserBoundsList>,
    pub delimiter: Option<Vec<u8>>,
    pub replace_delimiter: Option<Vec<u8>>,
    pub trim: Option<Trim>,
    pub fixed_memory_kb: Option<usize>,
    pub fallback_oob: Option<Vec<u8>>,
    pub path: Option<String>,
    pub regex: Option<String>,
    pub complement: bool,
    pub compress_delimiter: bool,
    pub greedy_delimiter: bool,
    pub join_yes: bool,
    pub join_no: bool,
    pub json: bool,
    pub mmap_no: bool,
    pub only_delimited: bool,
    pub zero_terminated: bool,
}

/// Why a configuration does not work.
#[derive(Debug, PartialEq)]
pub enum OptError {
    NoFieldBound,
    FixedMemoryZero,
    JoinNoJoin,
    JsonNoJoin,
    CharactersNoJoin,
    CharactersRequireRegexSupport,
    NoJoinReplace,
    JsonReplace,
    JsonPartialSupport,
    FormatFieldJson,
    NothingToCompress,
    /// The message of the regular expression compiler.
    MalformedRegex(String),
    RegexJoinNoReplace,
    RegexCompressNoReplace,
}

/// The spec-level image of an `OptError`.
pub enum OptErrorView {
    NoFieldBound,
    FixedMemoryZero,
    JoinNoJoin,
    JsonNoJoin,
    CharactersNoJoin,
    CharactersRequireRegexSupport,
    NoJoinReplace,
    JsonReplace,
    JsonPartialSupport,
    FormatFieldJson,
    NothingToCompress,
    MalformedRegex(Seq<char>),
    RegexJoinNoReplace,
    RegexCompressNoReplace,
}

impl View for OptError {
    type V = OptErrorView;

    open spec fn view(&self) -> OptErrorView {
        match self {
            OptError::NoFieldBound => OptErrorView::NoFieldBound,
            OptError::FixedMemoryZero => OptErrorView::FixedMemoryZero,
            OptError::JoinNoJoin => OptErrorView::JoinNoJoin,
            OptError::JsonNoJoin => OptErrorView::JsonNoJoin,
            OptError::CharactersNoJoin => OptErrorView::CharactersNoJoin,
            OptError::CharactersRequireRegexSupport => OptErrorView::CharactersRequireRegexSupport,
            OptError::NoJoinReplace => OptErrorView::NoJoinReplace,
            OptError::JsonReplace => OptErrorView::JsonReplace,
            OptError::JsonPartialSupport => OptErrorView::JsonPartialSupport,
            OptError::FormatFieldJson => OptErrorView::FormatFieldJson,
            OptError::NothingToCompress => OptErrorView::NothingToCompress,
            OptError::MalformedRegex(m) => OptErrorView::MalformedRegex(m@),
            OptError::RegexJoinNoReplace => OptErrorView::RegexJoinNoReplace,
            OptError::RegexCompressNoReplace => OptErrorView::RegexCompressNoReplace,
        }
    }
}

/// The bounds `1:`, every field.
pub open spec fn every_field_bounds() -> Seq<BofView> {
    seq![
        BofView::Bound(
            plain_bound(
                Side { value: 0, is_negative: false },
                Side { value: usize::MAX, is_negative: false },
            ),
        ),
    ]
}

/// The list of bounds `1:`, every field.
pub fn default_bounds() -> (ubl: UserBoundsList)
    ensures
        ubl@ == mark_last(every_field_bounds()),
        ubl.last_interesting_field == spec_last_interesting_field(every_field_bounds()),
{
    let mut v: Vec<BoundOrFiller> = Vec::new();
    v.push(BoundOrFiller::Bound(UserBounds::new(Side::new_inf_left(), Side::new_inf_right())));
    proof {
        assert(bofs_view(v@) =~= every_field_bounds());
    }
    UserBoundsList::new(v)
}

impl Default for Opt {
    fn default() -> (o: Opt)
        ensures
            o.delimiter@ == seq![45u8],
            o.eol == EOL::Newline,
            o.bounds@ == mark_last(every_field_bounds()),
            o.bounds.last_interesting_field == spec_last_interesting_field(every_field_bounds()),
            o.bounds_type == BoundsType::Fields,
            !o.only_delimited && !o.greedy_delimiter && !o.compress_delimiter,
            o.replace_delimiter is None && o.replace_delimiter_fn is None && o.trim is None,
            !o.complement && !o.join && !o.json,
            o.fixed_memory is None && o.fallback_oob is None && o.path is None,
            o.regex_bag is None,
            !o.use_mmap && !o.read_to_end && !o.unpack,
    {
        let mut delimiter: Vec<u8> = Vec::new();
        delimiter.push(45u8);
        Opt {
            delimiter,
            eol: EOL::Newline,
            bounds: default_bounds(),
            bounds_type: BoundsType::Fields,
            only_delimited: false,
            greedy_delimiter: false,
            compress_delimiter: false,
            replace_delimiter: None,
            replace_delimiter_fn: None,
            trim: None,
            complement: false,
            join: false,
            json: false,
            fixed_memory: None,
            fallback_oob: None,
            path: None,
            use_mmap: false,
            read_to_end: false,
            unpack: false,
            regex_bag: None,
        }
    }
}

/// Which kind of bounds the user asked for (fields when none).
pub open spec fn spec_bounds_type(a: Args) -> BoundsType {
    if a.cut_by_fields is Some {
        BoundsType::Fields
    } else if a.cut_by_bytes is Some {
        BoundsType::Bytes
    } else if a.cut_by_characters is Some {
        BoundsType::Characters
    } else if a.cut_by_lines is Some {
        BoundsType::Lines
    } else {
        BoundsType::Fields
    }
}

/// The list of bounds that is used: the first given among fields,
/// characters, bytes and lines.
pub open spec fn spec_chosen_list(a: Args) -> Option<UserBoundsList> {
    if a.cut_by_fields is Some {
        a.cut_by_fields
    } else if a.cut_by_characters is Some {
        a.cut_by_characters
    } else if a.cut_by_bytes is Some {
        a.cut_by_bytes
    } else {
        a.cut_by_lines
    }
}

/// The bounds that are used (`1:` when none was given), as a view.
pub open spec fn spec_chosen_bounds(a: Args) -> Seq<BofView> {
    match spec_chosen_list(a) {
        Some(l) => l@,
        None => mark_last(every_field_bounds()),
    }
}

/// The pattern `\b|\B`, which matches between any two characters.
pub open spec fn every_char_pattern() -> Seq<char> {
    seq!['\\', 'b', '|', '\\', 'B']
}

/// The regular expression used as delimiter, if any.
pub open spec fn spec_regex_text(a: Args) -> Option<Seq<char>> {
    if spec_bounds_type(a) == BoundsType::Characters {
        Some(every_char_pattern())
    } else {
        match a.regex {
            Some(r) => Some(r@),
            None => None,
        }
    }
}

/// The pattern that matches one or more consecutive matches of `p`.
pub open spec fn greedy_pattern(p: Seq<char>) -> Seq<char> {
    seq!['('] + p + seq![')', '+']
}

pub open spec fn opt_bytes(o: Option<Vec<u8>>) -> Option<Seq<u8>> {
    match o {
        Some(v) => Some(v@),
        None => None,
    }
}

/// The replacement of the delimiter: characters default to none at all,
/// JSON joins with a comma.
pub open spec fn spec_replace_delimiter(a: Args) -> Option<Seq<u8>> {
    if a.json {
        Some(seq![44u8])
    } else if spec_bounds_type(a) == BoundsType::Characters && a.replace_delimiter is None {
        Some(Seq::empty())
    } else {
        opt_bytes(a.replace_delimiter)
    }
}

/// Whether a list of bounds holds a filler.
pub open spec fn has_filler(s: Seq<BofView>) -> bool {
    exists|i: int| 0 <= i < s.len() && #[trigger] s[i] is Filler
}

/// The first reason, in the order they are checked, why the configuration
/// does not work.
pub open spec fn spec_opt_error(a: Args) -> Option<OptErrorView> {
    let bt = spec_bounds_type(a);
    if a.cut_by_fields matches Some(l) && l.list@.len() == 0 {
        Some(OptErrorView::NoFieldBound)
    } else if a.fixed_memory_kb == Some(0usize) {
        Some(OptErrorView::FixedMemoryZero)
    } else if a.join_yes && a.join_no {
        Some(OptErrorView::JoinNoJoin)
    } else if a.json && a.join_no {
        Some(OptErrorView::JsonNoJoin)
    } else if a.replace_delimiter is Some && a.join_no {
        Some(OptErrorView::NoJoinReplace)
    } else if a.replace_delimiter is Some && a.json {
        Some(OptErrorView::JsonReplace)
    } else if bt == BoundsType::Characters && a.join_no {
        Some(OptErrorView::CharactersNoJoin)
    } else if a.json && bt != BoundsType::Characters && bt != BoundsType::Fields {
        Some(OptErrorView::JsonPartialSupport)
    } else if spec_regex_text(a) is Some && !regex_compiles(spec_regex_text(a).unwrap()) {
        Some(OptErrorView::MalformedRegex(regex_error_text(spec_regex_text(a).unwrap())))
    } else if spec_regex_text(a) is Some && !regex_compiles(greedy_pattern(spec_regex_text(a).unwrap())) {
        Some(OptErrorView::MalformedRegex(regex_error_text(greedy_pattern(spec_regex_text(a).unwrap()))))
    } else if a.json && has_filler(spec_chosen_bounds(a)) {
        Some(OptErrorView::FormatFieldJson)
    } else if spec_regex_text(a) is Some && spec_replace_delimiter(a) is None && spec_join(a) {
        Some(OptErrorView::RegexJoinNoReplace)
    } else if spec_regex_text(a) is Some && spec_replace_delimiter(a) is None && a.compress_delimiter {
        Some(OptErrorView::RegexCompressNoReplace)
    } else if a.compress_delimiter && bt != BoundsType::Fields && bt != BoundsType::Lines {
        Some(OptErrorView::NothingToCompress)
    } else {
        None
    }
}

/// Whether the selected parts are joined with the delimiter.
pub open spec fn spec_join(a: Args) -> bool {
    let bt = spec_bounds_type(a);
    a.join_yes || a.json || spec_replace_delimiter(a) is Some || (bt == BoundsType::Lines && !a.join_no)
        || bt == BoundsType::Characters
}

/// The delimiter: the given one (a tab by default) for fields, a newline for
/// lines, none otherwise.
pub open spec fn spec_delimiter(a: Args) -> Seq<u8> {
    match spec_bounds_type(a) {
        BoundsType::Fields => match a.delimiter {
            Some(d) => d@,
            None => seq![9u8],
        },
        BoundsType::Lines => seq![10u8],
        _ => Seq::empty(),
    }
}

/// Whether `o` is the configuration that `a` asks for.
pub open spec fn opt_matches_args(o: Opt, a: Args) -> bool {
    let bt = spec_bounds_type(a);
    &&& o.bounds_type == bt
    &&& o.bounds@ == spec_chosen_bounds(a)
    &&& o.bounds.last_interesting_field == match spec_chosen_list(a) {
        Some(l) => l.last_interesting_field,
        None => spec_last_interesting_field(every_field_bounds()),
    }
    &&& o.delimiter@ == spec_delimiter(a)
    &&& o.fixed_memory == match a.fixed_memory_kb {
        Some(k) => Some((k * 1024) as usize),
        None => None::<usize>,
    }
    &&& o.join == spec_join(a)
    &&& match spec_regex_text(a) {
        Some(p) => o.regex_bag matches Some(bag) && bag.normal@ == p && bag.greedy@ == greedy_pattern(p),
        None => o.regex_bag is None,
    }
    &&& o.eol == if a.zero_terminated {
        EOL::Zero
    } else {
        EOL::Newline
    }
    &&& o.use_mmap == (a.path is Some && !a.mmap_no)
    &&& o.replace_delimiter_fn == if bt != BoundsType::Characters && spec_replace_delimiter(a) is Some {
        if spec_regex_text(a) is Some {
            Some(ReplaceDelimiterFn::Regex)
        } else {
            Some(ReplaceDelimiterFn::Fixed)
        }
    } else {
        None
    }
    &&& o.compress_delimiter == a.compress_delimiter
    &&& o.unpack == (a.json || (bt == BoundsType::Characters && spec_replace_delimiter(a) is Some))
    &&& opt_bytes(o.replace_delimiter) == spec_replace_delimiter(a)
    &&& o.complement == a.complement
    &&& opt_bytes(o.fallback_oob) == opt_bytes(a.fallback_oob)
    &&& o.only_delimited == a.only_delimited
    &&& o.greedy_delimiter == a.greedy_delimiter
    &&& o.trim == a.trim
    &&& o.json == a.json
    &&& o.path == a.path
    &&& !o.read_to_end
}

fn list_has_filler(l: &UserBoundsList) -> (r: bool)
    ensures
        r == has_filler(l@),
{
    let mut i: usize = 0;
    while i < l.list.len()
        invariant
            i <= l.list@.len(),
            forall|j: int| 0 <= j < i ==> !(#[trigger] l@[j] is Filler),
        decreases l.list.len() - i,
    {
        proof {
            assert(l@[i as int] == l.list@[i as int]@);
        }
        match &l.list[i] {
            BoundOrFiller::Filler(_) => {
                return true;
            },
            BoundOrFiller::Bound(_) => {},
        }
        i = i + 1;
    }
    false
}

/// Compile the regular expression and its greedy form.
fn make_regex_bag(pattern: &str) -> (r: Result<RegexBag, OptError>)
    ensures
        match r {
            Ok(bag) => regex_compiles(pattern@) && regex_compiles(greedy_pattern(pattern@))
                && bag.normal@ == pattern@ && bag.greedy@ == greedy_pattern(pattern@),
            Err(e) => if !regex_compiles(pattern@) {
                e@ == OptErrorView::MalformedRegex(regex_error_text(pattern@))
            } else {
                !regex_compiles(greedy_pattern(pattern@)) && e@ == OptErrorView::MalformedRegex(
                    regex_error_text(greedy_pattern(pattern@)),
                )
            },
        },
{
    let normal = match CompiledRegex::new(pattern) {
        Ok(c) => c,
        Err(m) => {
            return Err(OptError::MalformedRegex(m));
        },
    };
    let open_paren = "(";
    let close_plus = ")+";
    proof {
        reveal_strlit("(");
        reveal_strlit(")+");
    }
    let g = string_concat(string_concat(open_paren.to_owned(), pattern), close_plus);
    proof {
        assert(g@ =~= greedy_pattern(pattern@));
    }
    let greedy = match CompiledRegex::new(g.as_str()) {
        Ok(c) => c,
        Err(m) => {
            return Err(OptError::MalformedRegex(m));
        },
    };
    Ok(RegexBag { normal, greedy })
}

impl Opt {
    /// Check what the user asked for and derive the options of the run.
    /// `Err` carries the first reason, in the order of `spec_opt_error`, why
    /// the configuration does not work.
    #[verifier::rlimit(80)]
    pub fn try_from(value: Args) -> (r: Result<Opt, OptError>)
        requires
            value.fixed_memory_kb matches Some(k) ==> k * 1024 <= usize::MAX,
        ensures
            match r {
                Ok(o) => spec_opt_error(value) is None && opt_matches_args(o, value),
                Err(e) => spec_opt_error(value) == Some(e@),
            },
    {
        let ghost a = value;
        let Args {
            cut_by_fields,
            cut_by_characters,
            cut_by_bytes,
            cut_by_lines,
            delimiter,
            replace_delimiter,
            trim,
            fixed_memory_kb,
            fallback_oob,
            path,
            regex,
            complement,
            compress_delimiter,
            greedy_delimiter,
            join_yes,
            join_no,
            json,
            mmap_no,
            only_delimited,
            zero_terminated,
        } = value;
        let bounds_type = if cut_by_fields.is_some() {
            BoundsType::Fields
        } else if cut_by_bytes.is_some() {
            BoundsType::Bytes
        } else if cut_by_characters.is_some() {
            BoundsType::Characters
        } else if cut_by_lines.is_some() {
            BoundsType::Lines
        } else {
            BoundsType::Fields
        };
        if let Some(l) = &cut_by_fields {
            if l.list.len() == 0 {
                return Err(OptError::NoFieldBound);
            }
        }
        let bounds: UserBoundsList = match cut_by_fields {
            Some(l) => l,
            None => match cut_by_characters {
                Some(l) => l,
                None => match cut_by_bytes {
                    Some(l) => l,
                    None => match cut_by_lines {
                        Some(l) => l,
                        None => default_bounds(),
                    },
                },
            },
        };
        let delimiter: Vec<u8> = match bounds_type {
            BoundsType::Fields => match delimiter {
                Some(d) => d,
                None => {
                    let mut d: Vec<u8> = Vec::new();
                    d.push(9u8);
                    d
                },
            },
            BoundsType::Lines => {
                let mut d: Vec<u8> = Vec::new();
                d.push(10u8);
                d
            },
            _ => Vec::new(),
        };
        if fixed_memory_kb == Some(0usize) {
            return Err(OptError::FixedMemoryZero);
        }
        let fixed_memory: Option<usize> = match fixed_memory_kb {
            Some(k) => Some(k * 1024),
            None => None,
        };
        if join_yes && join_no {
            return Err(OptError::JoinNoJoin);
        }
        if json && join_no {
            return Err(OptError::JsonNoJoin);
        }
        if replace_delimiter.is_some() {
            if join_no {
                return Err(OptError::NoJoinReplace);
            } else if json {
                return Err(OptError::JsonReplace);
            }
        }
        if bounds_type == BoundsType::Characters && join_no {
            return Err(OptError::CharactersNoJoin);
        }
        let replace_delimiter: Option<Vec<u8>> = if json {
            let mut c: Vec<u8> = Vec::new();
            c.push(44u8);
            Some(c)
        } else if bounds_type == BoundsType::Characters && replace_delimiter.is_none() {
            Some(Vec::new())
        } else {
            replace_delimiter
        };
        let join = join_yes || json || replace_delimiter.is_some() || (bounds_type == BoundsType::Lines
            && !join_no) || (bounds_type == BoundsType::Characters);
        if json && bounds_type != BoundsType::Characters && bounds_type != BoundsType::Fields {
            return Err(OptError::JsonPartialSupport);
        }
        let every_char = "\\b|\\B";
        proof {
            reveal_strlit("\\b|\\B");
            assert(every_char@ =~= every_char_pattern());
        }
        let regex_bag: Option<RegexBag> = if bounds_type == BoundsType::Characters {
            Some(make_regex_bag(every_char)?)
        } else {
            match &regex {
                Some(p) => Some(make_regex_bag(p.as_str())?),
                None => None,
            }
        };
        if json && list_has_filler(&bounds) {
            return Err(OptError::FormatFieldJson);
        }
        let eol = if zero_terminated {
            EOL::Zero
        } else {
            EOL::Newline
        };
        let use_mmap = path.is_some() && !mmap_no;
        let replace_delimiter_fn: Option<ReplaceDelimiterFn> = if bounds_type != BoundsType::Characters
            && replace_delimiter.is_some() {
            if regex_bag.is_some() {
                Some(ReplaceDelimiterFn::Regex)
            } else {
                Some(ReplaceDelimiterFn::Fixed)
            }
        } else {
            None
        };
        if regex_bag.is_some() && replace_delimiter.is_none() {
            if join {
                return Err(OptError::RegexJoinNoReplace);
            }
            if compress_delimiter {
                return Err(OptError::RegexCompressNoReplace);
            }
        }
        if compress_delimiter {
            match bounds_type {
                BoundsType::Fields => {},
                BoundsType::Lines => {},
                _ => {
                    return Err(OptError::NothingToCompress);
                },
            }
        }
        let unpack = json || (bounds_type == BoundsType::Characters && replace_delimiter.is_some());
        Ok(
            Opt {
                bounds_type,
                bounds,
                delimiter,
                fixed_memory,
                join,
                regex_bag,
                eol,
                use_mmap,
                replace_delimiter_fn,
                compress_delimiter,
                unpack,
                replace_delimiter,
                complement,
                fallback_oob,
                only_delimited,
                greedy_delimiter,
                trim,
                json,
                path,
                read_to_end: false,
            },
        )
    }
}

/// The message of a configuration error.
pub open spec fn opt_error_message(e: OptErrorView) -> Seq<char> {
    match e {
        OptErrorView::NoFieldBound => "tuc: invariant error. At this point we expected to find at least 1 field bound"@,
        OptErrorView::FixedMemoryZero => "tuc: runtime error. --fixed-memory cannot be 0"@,
        OptErrorView::JoinNoJoin => "tuc: runtime error. It's not possible to use --join and --no-join simultaneously"@,
        OptErrorView::JsonNoJoin => "tuc: runtime error. Using both --json and --no-join is not permitted"@,
        OptErrorView::NoJoinReplace => "tuc: runtime error. You can't pass --no-join when using --replace, which implies --join"@,
        OptErrorView::JsonReplace => "tuc: runtime error. The use of --replace with --json is not supported"@,
        OptErrorView::CharactersNoJoin => "tuc: runtime error. Since --characters implies --join, you can't pass --no-join"@,
        OptErrorView::CharactersRequireRegexSupport => "tuc: runtime error. The use of --characters requires `tuc` to be compiled with `regex` support"@,
        OptErrorView::JsonPartialSupport => "tuc: runtime error. --json support is available only for --fields and --characters"@,
        OptErrorView::FormatFieldJson => "tuc: runtime error. Cannot format fields when using --json"@,
        OptErrorView::NothingToCompress => "tuc: runtime error. Delimiters can be compressed only with --fields and --lines"@,
        OptErrorView::MalformedRegex(m) => "tuc: runtime error. The regular expression is malformed. "@ + m,
        OptErrorView::RegexJoinNoReplace => "tuc: runtime error. Cannot use --regex and --join without --replace-delimiter"@,
        OptErrorView::RegexCompressNoReplace => "tuc: runtime error. Cannot use --regex and --compress-delimiter without --replace-delimiter"@,
    }
}

impl OptError {
    /// The message that tells what is wrong with the configuration.
    pub fn to_string(&self) -> (s: String)
        ensures
            s@ == opt_error_message(self@),
    {
        match self {
            OptError::NoFieldBound => "tuc: invariant error. At this point we expected to find at least 1 field bound".to_owned(),
            OptError::FixedMemoryZero => "tuc: runtime error. --fixed-memory cannot be 0".to_owned(),
            OptError::JoinNoJoin => "tuc: runtime error. It's not possible to use --join and --no-join simultaneously".to_owned(),
            OptError::JsonNoJoin => "tuc: runtime error. Using both --json and --no-join is not permitted".to_owned(),
            OptError::NoJoinReplace => "tuc: runtime error. You can't pass --no-join when using --replace, which implies --join".to_owned(),
            OptError::JsonReplace => "tuc: runtime error. The use of --replace with --json is not supported".to_owned(),
            OptError::CharactersNoJoin => "tuc: runtime error. Since --characters implies --join, you can't pass --no-join".to_owned(),
            OptError::CharactersRequireRegexSupport => "tuc: runtime error. The use of --characters requires `tuc` to be compiled with `regex` support".to_owned(),
            OptError::JsonPartialSupport => "tuc: runtime error. --json support is available only for --fields and --characters".to_owned(),
            OptError::FormatFieldJson => "tuc: runtime error. Cannot format fields when using --json".to_owned(),
            OptError::NothingToCompress => "tuc: runtime error. Delimiters can be compressed only with --fields and --lines".to_owned(),
            OptError::MalformedRegex(m) => string_concat(
                "tuc: runtime error. The regular expression is malformed. ".to_owned(),
                m.as_str(),
            ),
            OptError::RegexJoinNoReplace => "tuc: runtime error. Cannot use --regex and --join without --replace-delimiter".to_owned(),
            OptError::RegexCompressNoReplace => "tuc: runtime error. Cannot use --regex and --compress-delimiter without --replace-delimiter".to_owned(),
        }
    }
}

} // verus!
