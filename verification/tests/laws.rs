use tuc::cut_bytes::read_and_cut_bytes;
use tuc::cut_str::{compress_delimiter, read_and_cut_str, trim};
use tuc::finders::{DelimiterFinder, FixedFinder, FixedFinderRev, FixedGreedyFinder, FixedGreedyFinderRev};
use tuc::fast_lane::trim as fast_trim;
use tuc::json::escape_json;
use tuc::options::{Args, BoundsType, Opt, Trim};
use tuc::side::Side;
use tuc::userbounds::{BoundOrFiller, UserBounds};
use tuc::userboundslist::{duplicate_bof, UserBoundsList};

fn ubl(s: &str) -> UserBoundsList {
    UserBoundsList::from_str(s).unwrap()
}

#[test]
fn a_bound_reads_back_from_its_text() {
    for text in ["1", "3:7", "-2", "-5:-1", "2:-3", ":4"] {
        let b = UserBounds::from_str(text).unwrap();
        let again = UserBounds::from_str(&b.to_string()).unwrap();
        assert_eq!(again.l, b.l);
        assert_eq!(again.r, b.r);
    }
}

#[test]
fn a_bound_and_its_complement_split_the_parts() {
    let n = 6;
    for text in ["1", "2:3", "-2:", "3:-2", "1:"] {
        let b = UserBounds::from_str(text).unwrap();
        let range = b.try_into_range(n).unwrap();
        let complement = b.complement(n);
        for k in 0..n {
            let in_complement = match &complement {
                Ok(c) => c
                    .iter()
                    .any(|x| x.try_into_range(n).map(|r| r.contains(&k)).unwrap_or(false)),
                Err(_) => false,
            };
            assert_eq!(range.contains(&k), !in_complement, "{text} at {k}");
        }
    }
}

#[test]
fn unpacking_follows_the_range() {
    let n = 5;
    for text in ["2:4", "-3:", "1", "2:-2"] {
        let b = UserBounds::from_str(text).unwrap();
        let range = b.try_into_range(n).unwrap();
        let unpacked: Vec<usize> = b.unpack(n).iter().map(|u| u.l.value).collect();
        assert_eq!(unpacked, range.collect::<Vec<usize>>());
    }
    // a right side beyond the parts is not cut at the last part
    let b = UserBounds::from_str("1:7").unwrap();
    assert_eq!(b.try_into_range(n).unwrap(), 0..5);
    assert_eq!(b.unpack(n).len(), 7);
}

#[test]
fn matching_agrees_with_ranges() {
    let n = 6;
    for text in ["2:4", "1", "3:"] {
        let b = UserBounds::from_str(text).unwrap();
        let range = b.try_into_range(n).unwrap();
        for k in 0..n {
            assert_eq!(b.matches(k).unwrap(), range.contains(&k));
        }
    }
}

#[test]
fn trimming_is_greedy() {
    assert_eq!(trim(b"---a-b---", &Trim::Both, b"-"), b"a-b");
    assert_eq!(trim(b"----a--", &Trim::Left, b"--"), b"a--");
    assert_eq!(trim(b"a-b----", &Trim::Right, b"--"), b"a-b");
    assert_eq!(trim(b"-----", &Trim::Right, b"--"), b"-");
}

#[test]
fn fast_trimming_matches_text_trimming() {
    for line in [&b"--a--b--"[..], b"a", b"----", b"-a-"] {
        for kind in [Trim::Left, Trim::Right, Trim::Both] {
            assert_eq!(fast_trim(line, &kind, b'-'), trim(line, &kind, b"-"));
        }
    }
}

#[test]
fn compressing_leaves_no_run_of_delimiters() {
    let mut out = Vec::new();
    compress_delimiter(b"--a---b-c--", b"-", &mut out);
    assert_eq!(out, b"-a-b-c-".to_vec());
    assert!(!out.windows(2).any(|w| w == b"--"));
    compress_delimiter(b"a<>b<><>c", b"<>", &mut out);
    assert_eq!(out, b"a<>b<>c".to_vec());
}

#[test]
fn marking_the_last_bound_twice_changes_nothing() {
    let l = ubl("1,{2}x{3}");
    let copy: Vec<BoundOrFiller> = l.list.iter().map(duplicate_bof).collect();
    let again = UserBoundsList::new(copy);
    assert_eq!(again.list, l.list);
    assert_eq!(again.last_interesting_field, l.last_interesting_field);
}

fn no_args() -> Args {
    Args {
        cut_by_fields: None,
        cut_by_characters: None,
        cut_by_bytes: None,
        cut_by_lines: None,
        delimiter: None,
        replace_delimiter: None,
        trim: None,
        fixed_memory_kb: None,
        fallback_oob: None,
        path: None,
        regex: None,
        complement: false,
        compress_delimiter: false,
        greedy_delimiter: false,
        join_yes: false,
        join_no: false,
        json: false,
        mmap_no: false,
        only_delimited: false,
        zero_terminated: false,
    }
}

#[test]
fn options_that_imply_join_do_join() {
    let mut args = no_args();
    args.replace_delimiter = Some(b"/".to_vec());
    assert!(Opt::try_from(args).unwrap().join);

    let mut args = no_args();
    args.json = true;
    assert!(Opt::try_from(args).unwrap().join);

    let mut args = no_args();
    args.cut_by_characters = Some(ubl("1"));
    assert!(Opt::try_from(args).unwrap().join);

    let mut args = no_args();
    args.cut_by_lines = Some(ubl("1"));
    assert!(Opt::try_from(args).unwrap().join);

    let mut args = no_args();
    args.cut_by_lines = Some(ubl("1"));
    args.join_no = true;
    assert!(!Opt::try_from(args).unwrap().join);
}

#[test]
fn json_escaping() {
    assert_eq!(escape_json("plain é text"), "plain é text");
    assert_eq!(escape_json("a\"b"), "a\\\"b");
    assert_eq!(escape_json("tab\tend\n"), "tab\\tend\\n");
    assert_eq!(escape_json("é\""), "\\u00E9\\\"");
    assert_eq!(escape_json("\u{1}"), "\\u0001");
    assert_eq!(escape_json("😀"), "\\uD83D\\uDE00");
    assert_eq!(escape_json("\u{7f}\\"), "\\u007F\\\\");
}

#[test]
fn bytes_are_cut_from_the_whole_input() {
    let opt = Opt {
        bounds_type: BoundsType::Bytes,
        bounds: ubl("2:3,-1"),
        ..Opt::default()
    };
    let mut out = Vec::new();
    read_and_cut_bytes(b"hello", &mut out, &opt).unwrap();
    assert_eq!(out, b"elo".to_vec());

    let mut out = Vec::new();
    read_and_cut_bytes(b"", &mut out, &opt).unwrap();
    assert!(out.is_empty());

    let opt = Opt {
        bounds_type: BoundsType::Bytes,
        bounds: ubl("{1}x{9}"),
        ..Opt::default()
    };
    let mut out = Vec::new();
    let err = read_and_cut_bytes(b"hello", &mut out, &opt).unwrap_err();
    assert_eq!(out, b"hx".to_vec());
    assert_eq!(err.to_string(), "Out of bounds: 9");
}

#[test]
fn a_malformed_regex_reports_the_compiler_message() {
    let mut args = no_args();
    args.regex = Some("[".to_string());
    let err = Opt::try_from(args).unwrap_err().to_string();
    let prefix = "tuc: runtime error. The regular expression is malformed. ";
    assert!(err.starts_with(prefix));
    assert!(err.len() > prefix.len());
}

#[test]
fn sides_print_one_indexed() {
    assert_eq!(UserBounds::new(Side::with_pos_value(0), Side::with_pos_value(2)).to_string(), "1:3");
    assert_eq!(UserBounds::new(Side::with_neg_value(0), Side::with_neg_value(0)).to_string(), "-1");
}

fn fields_opt(bounds: &str) -> Opt {
    Opt {
        bounds_type: BoundsType::Fields,
        delimiter: b"-".to_vec(),
        bounds: ubl(bounds),
        ..Opt::default()
    }
}

fn cut_text(input: &[u8], opt: &Opt) -> Vec<u8> {
    let mut out = Vec::new();
    read_and_cut_str(input, &mut out, opt).unwrap();
    out
}

#[test]
fn trimming_happens_before_cutting() {
    for bounds in ["1", "2", "1:", "-1", "2:3"] {
        let trimmed = Opt { trim: Some(Trim::Both), ..fields_opt(bounds) };
        let plain = fields_opt(bounds);
        assert_eq!(cut_text(b"--a-b--c--\n", &trimmed), cut_text(b"a-b--c\n", &plain));
    }
    let trimmed = Opt { trim: Some(Trim::Left), ..fields_opt("1") };
    assert_eq!(cut_text(b"--a-b--\n", &trimmed), b"a\n".to_vec());
}

#[test]
fn compressing_happens_before_cutting() {
    for bounds in ["1", "2", "3", "1:", "-1", "2:3"] {
        let compressed = Opt { compress_delimiter: true, ..fields_opt(bounds) };
        let plain = fields_opt(bounds);
        assert_eq!(cut_text(b"a--b---c\n", &compressed), cut_text(b"a-b-c\n", &plain));
    }
}

#[test]
fn negative_sides_count_from_the_end() {
    let n = 4;
    for (neg, pos) in [("-1", "4"), ("-4", "1"), ("-3:-2", "2:3"), ("-4:-1", "1:4")] {
        let a = UserBounds::from_str(neg).unwrap().try_into_range(n);
        let b = UserBounds::from_str(pos).unwrap().try_into_range(n);
        assert_eq!(a.map_err(|e| e.to_string()), b.map_err(|e| e.to_string()));
    }
}

#[test]
fn only_delimited_skips_lines_without_the_delimiter() {
    let opt = Opt { only_delimited: true, ..fields_opt("1") };
    assert_eq!(cut_text(b"a-b\nxyz\n-\n", &opt), b"a\n\n".to_vec());
    let opt = Opt { only_delimited: true, trim: Some(Trim::Both), ..fields_opt("1") };
    assert_eq!(cut_text(b"---\nxyz\n-a-b-\n", &opt), b"a\n".to_vec());
}

#[test]
fn the_default_bound_keeps_every_line() {
    let opt = Opt::default();
    assert_eq!(cut_text(b"a\tb\nc\r\n\nlast", &opt), b"a\tb\nc\n\nlast\n".to_vec());
    let opt = fields_opt("1:");
    assert_eq!(cut_text(b"a-b-c\n-\n", &opt), b"a-b-c\n-\n".to_vec());
    let opt = Opt { join: true, ..fields_opt("1:") };
    assert_eq!(cut_text(b"a-b-c\n", &opt), b"a-b-c\n".to_vec());
}

#[test]
fn greedy_delimiters_cut_like_compressed_ones() {
    let inputs: [&[u8]; 6] = [b"a--b---c\n", b"--a-b--\n", b"---\n", b"abc\n", b"-a\n", b"a-\n"];
    for bounds in ["1", "2", "3", "-1", "-2", "-3", "{1}|{2}|{-1}"] {
        for input in inputs {
            let greedy = Opt { greedy_delimiter: true, fallback_oob: Some(b"?".to_vec()), ..fields_opt(bounds) };
            let compressed = Opt { compress_delimiter: true, fallback_oob: Some(b"?".to_vec()), ..fields_opt(bounds) };
            assert_eq!(cut_text(input, &greedy), cut_text(input, &compressed), "{} {:?}", bounds, input);
        }
    }
}

fn fields_from_start(line: &[u8], delimiter: &[u8]) -> Vec<Vec<u8>> {
    fields_from_start_with(&FixedFinder::new(delimiter), line)
}

fn fields_from_end(line: &[u8], delimiter: &[u8]) -> Vec<Vec<u8>> {
    fields_from_end_with(&FixedFinderRev::new(delimiter), line)
}

fn fields_from_start_with<F: DelimiterFinder>(finder: &F, line: &[u8]) -> Vec<Vec<u8>> {
    let ranges = finder.find_ranges(line);
    let mut out = Vec::new();
    let mut start = 0;
    for r in ranges {
        out.push(line[start..r.start].to_vec());
        start = r.end;
    }
    out.push(line[start..].to_vec());
    out
}

fn fields_from_end_with<F: DelimiterFinder>(finder: &F, line: &[u8]) -> Vec<Vec<u8>> {
    let ranges = finder.find_ranges(line);
    let mut out = Vec::new();
    let mut end = line.len();
    for r in ranges {
        out.push(line[r.end..end].to_vec());
        end = r.start;
    }
    out.push(line[..end].to_vec());
    out
}

#[test]
fn fields_from_the_end_are_fields_from_the_start_reversed() {
    for line in [&b"a-b--c"[..], b"", b"-", b"abc", b"-a-", b"--"] {
        let mut backwards = fields_from_end(line, b"-");
        backwards.reverse();
        assert_eq!(backwards, fields_from_start(line, b"-"));
    }
    for line in [&b"a<>b<><>c"[..], b"<><>", b"x<y>"] {
        let mut backwards = fields_from_end(line, b"<>");
        backwards.reverse();
        assert_eq!(backwards, fields_from_start(line, b"<>"));
    }
    // A delimiter that overlaps itself can split the line elsewhere.
    let mut backwards = fields_from_end(b"aaa", b"aa");
    backwards.reverse();
    assert_eq!(backwards, vec![b"a".to_vec(), b"".to_vec()]);
    assert_eq!(fields_from_start(b"aaa", b"aa"), vec![b"".to_vec(), b"a".to_vec()]);
}

#[test]
fn greedy_fields_from_the_end_are_greedy_fields_from_the_start_reversed() {
    for (line, delimiter) in [
        (&b"a--b---c"[..], &b"-"[..]),
        (b"--a-b--", b"-"),
        (b"---", b"-"),
        (b"", b"-"),
        (b"a<><>b<>", b"<>"),
    ] {
        let mut backwards = fields_from_end_with(&FixedGreedyFinderRev::new(delimiter), line);
        backwards.reverse();
        assert_eq!(backwards, fields_from_start_with(&FixedGreedyFinder::new(delimiter), line));
    }
    let start = fields_from_start_with(&FixedGreedyFinder::new(b"-"), b"a--b---c");
    assert_eq!(start, vec![b"a".to_vec(), b"b".to_vec(), b"c".to_vec()]);
}

#[test]
fn greedy_fields_are_the_fields_of_the_compressed_line() {
    for line in [&b"--a---b-"[..], b"a", b"", b"---", b"a-b", b"-a--"] {
        let mut compressed = Vec::new();
        compress_delimiter(line, b"-", &mut compressed);
        assert_eq!(
            fields_from_start_with(&FixedGreedyFinder::new(b"-"), line),
            fields_from_start(&compressed, b"-"),
        );
    }
    for (line, delimiter) in [
        (&b"a<><>b<>"[..], &b"<>"[..]),
        (b"aaaa", b"aa"),
        (b"ababa", b"aba"),
        (b"xaaaaay", b"aa"),
        (b"abc", b""),
    ] {
        let mut compressed = Vec::new();
        compress_delimiter(line, delimiter, &mut compressed);
        assert_eq!(
            fields_from_start_with(&FixedGreedyFinder::new(delimiter), line),
            fields_from_start(&compressed, delimiter),
        );
    }
}

#[test]
fn compressing_leaves_no_delimiters_back_to_back() {
    for (line, delimiter) in [(&b"a<><>b<><><>c<>"[..], &b"<>"[..]), (b"xaaaaay", b"aa"), (b"--a---", b"-")] {
        let mut compressed = Vec::new();
        compress_delimiter(line, delimiter, &mut compressed);
        let ranges = FixedFinder::new(delimiter).find_ranges(&compressed);
        for pair in ranges.windows(2) {
            assert!(pair[1].start > pair[0].end);
        }
    }
    let mut compressed = Vec::new();
    compress_delimiter(b"a<><>b<><><>c<>", b"<>", &mut compressed);
    assert_eq!(compressed, b"a<>b<>c<>".to_vec());
}

#[test]
fn escaped_json_decodes_to_its_input() {
    for text in ["plain", "a\"b\\c", "tab\tnew\nline\r\u{1}\u{7f}", "é and 😀", "\u{2028}\u{2029}", ""] {
        let literal = format!("\"{}\"", escape_json(text));
        let back: String = serde_json::from_str(&literal).unwrap();
        assert_eq!(back, text);
    }
}

#[test]
fn escaped_json_holds_no_raw_quote_backslash_or_control() {
    for text in [
        "plain",
        "a\"b\\c",
        "\u{1}\u{1f} \u{7f}",
        "line\u{2028}para\u{2029}",
        "é\"😀\n",
    ] {
        let escaped = escape_json(text);
        let chars: Vec<char> = escaped.chars().collect();
        let mut i = 0;
        while i < chars.len() {
            let c = chars[i];
            assert!(c as u32 >= 0x20, "{:?}", escaped);
            assert!(c != '\u{7f}' && c != '\u{2028}' && c != '\u{2029}', "{:?}", escaped);
            assert!(c != '"', "{:?}", escaped);
            if c == '\\' {
                let next = chars[i + 1];
                if next == 'u' {
                    assert!(chars[i + 2..i + 6].iter().all(|h| h.is_ascii_hexdigit()));
                    i += 6;
                } else {
                    assert!("\"\\bfnrt".contains(next), "{:?}", escaped);
                    i += 2;
                }
            } else {
                i += 1;
            }
        }
    }
    assert_eq!(escape_json("a\u{2028}"), "a\\u2028");
}
