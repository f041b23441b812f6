use tuc::cut::{cut_input, options_ready};
use tuc::options::{Args, Opt};
use tuc::userboundslist::UserBoundsList;

fn ubl(s: &str) -> UserBoundsList {
    UserBoundsList::from_str(s).unwrap()
}

fn no_args() -> Args {
    Args {
        cut_by_fields: None,
        cut_by_characters: None,
        cut_by_bytes: None,
        cut_by_lines: None,
        delimiter: None,
        replace_delimiter: None,
        trim: None,
        fixed_memory_kb: None,
        fallback_oob: None,
        path: None,
        regex: None,
        complement: false,
        compress_delimiter: false,
        greedy_delimiter: false,
        join_yes: false,
        join_no: false,
        json: false,
        mmap_no: false,
        only_delimited: false,
        zero_terminated: false,
    }
}

fn fields(delimiter: &str, bounds: &str) -> Args {
    let mut args = no_args();
    args.delimiter = Some(delimiter.as_bytes().to_vec());
    args.cut_by_fields = Some(ubl(bounds));
    args
}

/// What the program prints for these arguments and this input, or its error.
fn tuc(args: Args, input: &[u8]) -> Result<Vec<u8>, String> {
    let opt = Opt::try_from(args).map_err(|e| e.to_string())?;
    assert!(options_ready(&opt));
    let mut out = Vec::new();
    cut_input(input, &mut out, &opt).map_err(|e| e.to_string())?;
    Ok(out)
}

fn tuc_text(args: Args, input: &str) -> String {
    String::from_utf8_lossy(&tuc(args, input.as_bytes()).unwrap()).into_owned()
}

#[test]
fn it_echo_non_delimited_line() {
    let mut args = no_args();
    args.delimiter = Some(b"/".to_vec());
    assert_eq!(tuc_text(args, "foobar"), "foobar\n");
}

#[test]
fn it_skips_non_delimited_line_when_requested() {
    let mut args = no_args();
    args.only_delimited = true;
    assert_eq!(tuc_text(args, "one\ntwo\tkeepme\nthree"), "two\tkeepme\n");
}

#[test]
fn it_cut_a_field() {
    let mut args = no_args();
    args.cut_by_fields = Some(ubl("2"));
    assert_eq!(tuc_text(args, "foobar\tbaz"), "baz\n");
}

#[test]
fn it_cut_consecutive_delimiters() {
    assert_eq!(tuc_text(fields("-", "1,3"), "foo--bar"), "foobar\n");
}

#[test]
fn it_cut_using_multibyte_delimiters() {
    assert_eq!(tuc_text(fields("...", "2"), "foo...bar"), "bar\n");
}

#[test]
fn it_works_on_multiple_lines() {
    let mut args = no_args();
    args.cut_by_fields = Some(ubl("2"));
    assert_eq!(tuc_text(args, "hello\nfoobar\tbaz"), "hello\nbaz\n");
}

#[test]
fn it_accepts_values_starting_with_hyphen() {
    let mut args = no_args();
    args.cut_by_fields = Some(ubl("-1"));
    assert_eq!(tuc_text(args, "hello"), "hello\n");
}

#[test]
fn it_compresses_delimiters_when_requested() {
    let mut args = fields("-", "2");
    args.compress_delimiter = true;
    assert_eq!(tuc_text(args, "foo---bar"), "bar\n");
}

#[test]
fn it_compresses_delimiters_when_requested_and_handles_boundaries() {
    let mut args = no_args();
    args.delimiter = Some(b"-".to_vec());
    args.compress_delimiter = true;
    assert_eq!(tuc_text(args, "--foo---bar--"), "-foo-bar-\n");
}

#[test]
fn it_cuts_on_characters() {
    let mut args = no_args();
    args.cut_by_characters = Some(ubl("2,-2"));
    assert_eq!(tuc_text(args, "😁🤩😝😎"), "🤩😝\n");
}

#[test]
fn it_cuts_on_bytes() {
    let mut args = no_args();
    args.cut_by_bytes = Some(ubl("3:"));
    assert_eq!(tuc_text(args, "über"), "ber");
}

#[test]
fn it_support_zero_terminated_lines() {
    let mut args = fields("_", "2");
    args.zero_terminated = true;
    assert_eq!(tuc_text(args, "hello_world\0foo_bar"), "world\0bar\0");
}

#[test]
fn it_can_complement_the_fields() {
    let mut args = fields(" ", "2");
    args.complement = true;
    assert_eq!(tuc_text(args, "a b c"), "ac\n");

    let mut args = fields(" ", "1:");
    args.complement = true;
    assert_eq!(tuc(args, b"a b c").unwrap_err(), "the complement is empty");
}

#[test]
fn it_join_fields() {
    let mut args = fields(" ", "1,3");
    args.join_yes = true;
    assert_eq!(tuc_text(args, "a b c"), "a c\n");

    let mut args = fields(" ", "1,3");
    args.replace_delimiter = Some(b"/".to_vec());
    assert_eq!(tuc_text(args, "a b c"), "a/c\n");

    let mut args = fields("-", "2");
    args.join_yes = true;
    args.complement = true;
    assert_eq!(tuc_text(args, "a-b-c"), "a-c\n");
}

#[test]
fn it_format_fields() {
    let mut args = no_args();
    args.cut_by_fields = Some(ubl("Say {1} to our {2}.\nJust {{saying}}"));
    assert_eq!(
        tuc_text(args, "hello\tworld"),
        "Say hello to our world.\nJust {saying}\n"
    );
}

#[test]
fn it_cuts_using_a_greedy_delimiter() {
    let mut args = fields("-", "1,2");
    args.greedy_delimiter = true;
    assert_eq!(tuc_text(args, "a---b"), "ab\n");
}

#[test]
fn it_cuts_using_a_regex() {
    let mut args = no_args();
    args.regex = Some("[.,]".to_string());
    args.cut_by_fields = Some(ubl("1,5"));
    assert_eq!(tuc_text(args, "a..,,b"), "ab\n");
}

#[test]
fn it_cuts_using_a_greedy_delimiter_and_a_regex() {
    let mut args = no_args();
    args.regex = Some("[.,]".to_string());
    args.cut_by_fields = Some(ubl("1,2"));
    args.greedy_delimiter = true;
    assert_eq!(tuc_text(args, "a..,,b"), "ab\n");
}

#[test]
fn it_fails_if_both_join_and_nojoin_are_used_at_once() {
    let mut args = no_args();
    args.join_yes = true;
    args.join_no = true;
    assert_eq!(
        tuc(args, b"foobar").unwrap_err(),
        "tuc: runtime error. It's not possible to use --join and --no-join simultaneously"
    );
}

#[test]
fn it_fails_if_both_replace_and_nojoin_are_used_at_once() {
    let mut args = no_args();
    args.replace_delimiter = Some(b"x".to_vec());
    args.join_no = true;
    assert_eq!(
        tuc(args, b"foobar").unwrap_err(),
        "tuc: runtime error. You can't pass --no-join when using --replace, which implies --join"
    );
}

#[test]
fn it_fails_when_the_regex_is_malformed() {
    let mut args = no_args();
    args.regex = Some("[".to_string());
    let err = tuc(args, b"foobar").unwrap_err();
    assert!(err.starts_with("tuc: runtime error. The regular expression is malformed."));
}

#[test]
fn it_emit_output_as_json() {
    let mut args = fields("/", "1,2,1:3");
    args.json = true;
    assert_eq!(tuc_text(args, "a/b/c/d"), "[\"a\",\"b\",\"a\",\"b\",\"c\"]\n");
}

#[test]
fn it_emit_output_as_json_even_when_cutting_on_chars() {
    let mut args = no_args();
    args.cut_by_characters = Some(ubl("1,2,1:3"));
    args.json = true;
    assert_eq!(tuc_text(args, "abcd"), "[\"a\",\"b\",\"a\",\"b\",\"c\"]\n");
}

#[test]
fn it_does_not_allow_to_replace_delimiter_with_json() {
    let mut args = no_args();
    args.replace_delimiter = Some(b"x".to_vec());
    args.json = true;
    assert_eq!(
        tuc(args, b"foobar").unwrap_err(),
        "tuc: runtime error. The use of --replace with --json is not supported"
    );
}

#[test]
fn it_is_not_allowed_to_use_character_with_nojoin() {
    let mut args = no_args();
    args.cut_by_characters = Some(ubl("1"));
    args.join_no = true;
    assert_eq!(
        tuc(args, b"foobar").unwrap_err(),
        "tuc: runtime error. Since --characters implies --join, you can't pass --no-join"
    );
}

#[test]
fn it_does_not_support_json_on_lines() {
    let mut args = no_args();
    args.cut_by_lines = Some(ubl("1"));
    args.json = true;
    assert_eq!(
        tuc(args, b"foobar").unwrap_err(),
        "tuc: runtime error. --json support is available only for --fields and --characters"
    );
}

#[test]
fn it_does_not_support_json_on_bytes() {
    let mut args = no_args();
    args.cut_by_bytes = Some(ubl("1"));
    args.json = true;
    assert_eq!(
        tuc(args, b"foobar").unwrap_err(),
        "tuc: runtime error. --json support is available only for --fields and --characters"
    );
}

#[test]
fn it_cannot_format_fields_alongside_json() {
    let mut args = no_args();
    args.cut_by_fields = Some(ubl("a{1}b"));
    args.json = true;
    assert_eq!(
        tuc(args, b"foobar").unwrap_err(),
        "tuc: runtime error. Cannot format fields when using --json"
    );
}

#[test]
fn readme_keeps_a_range_of_fields() {
    assert_eq!(tuc_text(fields(" ", "2:"), "foo bar    baz\n"), "bar    baz\n");
}

#[test]
fn readme_negative_indexes_rearranged() {
    assert_eq!(tuc_text(fields(" ", "-1,-2,-3"), "a b c\n"), "cba\n");
}

#[test]
fn readme_cuts_with_a_regular_expression() {
    let mut args = no_args();
    args.regex = Some("[, ]+".to_string());
    args.cut_by_fields = Some(ubl("1,3"));
    assert_eq!(tuc_text(args, "a,b, c\n"), "ac\n");
}

#[test]
fn readme_emits_json() {
    let mut args = no_args();
    args.delimiter = Some(b" ".to_vec());
    args.json = true;
    assert_eq!(tuc_text(args, "foo bar baz\n"), "[\"foo\",\"bar\",\"baz\"]\n");
}

#[test]
fn readme_long_delimiters() {
    assert_eq!(tuc_text(fields("<sep>", "1,3"), "a<sep>b<sep>c\n"), "ac\n");
}

#[test]
fn readme_greedy_delimiter() {
    let mut args = fields(" ", "1,2");
    args.greedy_delimiter = true;
    assert_eq!(tuc_text(args, "foo    bar\n"), "foobar\n");
}

#[test]
fn readme_formats_output() {
    assert_eq!(
        tuc_text(fields(" ", "{1}, {2} and lastly {3}"), "foo bar baz\n"),
        "foo, bar and lastly baz\n"
    );
    assert_eq!(
        tuc_text(fields(" ", "{2}\\n├── {1}\\n└── {3}"), "100Kb README.txt 2049-02-01\n"),
        "README.txt\n├── 100Kb\n└── 2049-02-01\n"
    );
}

#[test]
fn readme_cuts_lines() {
    let mut args = no_args();
    args.cut_by_lines = Some(ubl("2:-2"));
    assert_eq!(tuc_text(args, "a\nb\nc\nd\ne"), "b\nc\nd\n");
}

#[test]
fn readme_concatenates_lines() {
    let mut args = no_args();
    args.cut_by_lines = Some(ubl("1,2"));
    args.join_no = true;
    assert_eq!(tuc_text(args, "a\nb\nc\nd\ne"), "ab\n");
}

#[test]
fn readme_compresses_delimiters() {
    let mut args = fields(" ", "2:");
    args.compress_delimiter = true;
    assert_eq!(tuc_text(args, "foo    bar   baz\n"), "bar baz\n");

    let mut args = fields(" ", "2:");
    args.compress_delimiter = true;
    args.replace_delimiter = Some(b" -> ".to_vec());
    assert_eq!(tuc_text(args, "foo    bar   baz\n"), "bar -> baz\n");
}

#[test]
fn readme_cuts_characters() {
    let mut args = no_args();
    args.cut_by_characters = Some(ubl("4,3,2,1"));
    assert_eq!(tuc_text(args, "😁🤩😝😎\n"), "😎😝🤩😁\n");
}

#[test]
fn readme_cuts_bytes() {
    let mut args = no_args();
    args.cut_by_bytes = Some(ubl("5:8"));
    assert_eq!(tuc_text(args, "😁🤩😝😎\n"), "🤩");
}

#[test]
fn readme_complement() {
    let mut args = fields(" ", "2");
    args.complement = true;
    assert_eq!(tuc_text(args, "a b c\n"), "ac\n");
}

#[test]
fn help_examples_cut_fields() {
    let line = "a-b-c-d";
    assert_eq!(tuc_text(fields("-", "1"), line), "a\n");
    assert_eq!(tuc_text(fields("-", "1:"), line), "a-b-c-d\n");
    assert_eq!(tuc_text(fields("-", "1:3"), line), "a-b-c\n");
    assert_eq!(tuc_text(fields("-", "3,2"), line), "cb\n");
    assert_eq!(tuc_text(fields("-", "3,1:2"), line), "ca-b\n");
    assert_eq!(tuc_text(fields("-", "-3:-2"), line), "b-c\n");
    assert_eq!(tuc_text(fields("-", "1,8=fallback"), line), "afallback\n");
    assert_eq!(tuc_text(fields("-", "({1}, {2})"), line), "(a, b)\n");
}

fn lines(bounds: &str) -> Args {
    let mut args = no_args();
    args.cut_by_lines = Some(ubl(bounds));
    args
}

#[test]
fn it_cuts_on_lines() {
    assert_eq!(tuc_text(lines("1,3"), "a\nb\nc"), "a\nc\n");
    assert_eq!(tuc_text(lines("3,1"), "a\nb\nc"), "c\na\n");
    assert_eq!(tuc_text(lines("2:3"), "a\nb\nc"), "b\nc\n");
    let mut args = lines("2");
    args.complement = true;
    assert_eq!(tuc_text(args, "a\nb\nc"), "a\nc\n");
}

#[test]
fn it_join_lines() {
    assert_eq!(tuc_text(lines("1,3"), "a\nb\nc"), "a\nc\n");
    assert_eq!(tuc_text(lines("3,1"), "a\nb\nc"), "c\na\n");
    let mut args = lines("1,3");
    args.join_no = true;
    assert_eq!(tuc_text(args, "a\nb\nc"), "ac\n");
    let mut args = lines("3,1");
    args.join_no = true;
    assert_eq!(tuc_text(args, "a\nb\nc"), "ca\n");
}

#[test]
fn json_output_escapes_as_json_does() {
    let mut args = fields("/", "1,2");
    args.json = true;
    assert_eq!(
        tuc_text(args, "q\"t\\/\u{1}\u{7f}\té"),
        "[\"q\\\"t\\\\\",\"\\u0001\u{7f}\\t\u{e9}\"]\n"
    );
}
