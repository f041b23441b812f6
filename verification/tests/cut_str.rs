use tuc::cut_str::{read_and_cut_str, trim_regex};
use tuc::options::{Args, BoundsType, Opt, RegexBag, Trim, EOL};
use tuc::pattern::CompiledRegex;
use tuc::userboundslist::UserBoundsList;

fn make_fields_opt() -> Opt {
    Opt {
        bounds_type: BoundsType::Fields,
        delimiter: b"-".to_vec(),
        ..Opt::default()
    }
}

fn ubl(s: &str) -> UserBoundsList {
    UserBoundsList::from_str(s).unwrap()
}

fn re(s: &str) -> CompiledRegex {
    CompiledRegex::new(s).unwrap()
}

fn make_regex_bag() -> RegexBag {
    RegexBag {
        normal: re("[.,]"),
        greedy: re("([.,])+"),
    }
}

fn make_cut_characters_regex_bag() -> RegexBag {
    RegexBag {
        normal: re("\\b|\\B"),
        greedy: re("(\\b|\\B)+"),
    }
}

fn no_args() -> Args {
    Args {
        cut_by_fields: None,
        cut_by_characters: None,
        cut_by_bytes: None,
        cut_by_lines: None,
        delimiter: None,
        replace_delimiter: None,
        trim: None,
        fixed_memory_kb: None,
        fallback_oob: None,
        path: None,
        regex: None,
        complement: false,
        compress_delimiter: false,
        greedy_delimiter: false,
        join_yes: false,
        join_no: false,
        json: false,
        mmap_no: false,
        only_delimited: false,
        zero_terminated: false,
    }
}

fn cut(opt: &Opt, input: &[u8]) -> Vec<u8> {
    let mut output = Vec::new();
    read_and_cut_str(input, &mut output, opt).unwrap();
    output
}

#[test]
fn cut_str_test_read_and_cut_str_echo_non_delimited_strings() {
    let opt = make_fields_opt();
    assert_eq!(cut(&opt, b"foo"), b"foo\n".to_vec());
}

#[test]
fn test_read_and_cut_str_echo_non_delimited_strings_with_eol_zero() {
    let mut opt = make_fields_opt();
    opt.eol = EOL::Zero;
    assert_eq!(cut(&opt, b"foo"), b"foo\0".to_vec());
}

#[test]
fn read_and_cut_str_echo_non_delimited_strings() {
    let opt = make_fields_opt();
    assert_eq!(cut(&opt, b"foo"), b"foo\n".to_vec());
    assert_eq!(cut(&opt, b""), b"".to_vec());
}

#[test]
fn read_and_cut_str_skip_non_delimited_strings_when_requested() {
    let mut opt = make_fields_opt();
    opt.only_delimited = true;
    assert_eq!(cut(&opt, b"foo"), b"".to_vec());
    assert_eq!(cut(&opt, b""), b"".to_vec());
}

#[test]
fn read_and_cut_str_it_cut_a_field() {
    let mut opt = make_fields_opt();
    opt.bounds = ubl("1");
    assert_eq!(cut(&opt, b"a-b-c"), b"a\n".to_vec());
}

#[test]
fn read_and_cut_str_it_cut_ranges() {
    let mut opt = make_fields_opt();
    opt.bounds = ubl("1,1:3");
    assert_eq!(cut(&opt, b"a-b-c"), b"aa-b-c\n".to_vec());
}

#[test]
fn read_and_cut_str_regex_it_cut_a_field() {
    let mut opt = make_fields_opt();
    opt.bounds = ubl("1,2,3");
    opt.regex_bag = Some(make_regex_bag());
    assert_eq!(cut(&opt, b"a.b,c"), b"abc\n".to_vec());
}

#[test]
fn test_trim_regex_left_match() {
    let result = trim_regex(b"---a-b---", &Trim::Left, &re("-+"));
    assert_eq!(result, b"a-b---");
}

#[test]
fn test_trim_regex_left_no_match_risk_wrong_match() {
    let result = trim_regex(b"a-b---", &Trim::Left, &re("-+"));
    assert_eq!(result, b"a-b---");
}

#[test]
fn test_trim_regex_left_no_match() {
    let result = trim_regex(b"abc", &Trim::Left, &re("-+"));
    assert_eq!(result, b"abc");
}

#[test]
fn test_trim_regex_right() {
    let result = trim_regex(b"---a-b---", &Trim::Right, &re("-+"));
    assert_eq!(result, b"---a-b");
}

#[test]
fn test_trim_regex_right_no_match() {
    let result = trim_regex(b"---a-b", &Trim::Right, &re("-+"));
    assert_eq!(result, b"---a-b");
}

#[test]
fn test_trim_regex_both() {
    let result = trim_regex(b"---a-b---", &Trim::Both, &re("-+"));
    assert_eq!(result, b"a-b");
}

#[test]
fn test_trim_regex_both_no_match() {
    let result = trim_regex(b"a-b", &Trim::Both, &re("-+"));
    assert_eq!(result, b"a-b");
}

#[test]
fn cut_str_cut_str_it_cut_consecutive_delimiters() {
    let mut opt = make_fields_opt();
    opt.bounds = ubl("1,3");
    assert_eq!(cut(&opt, b"a-b-c"), b"ac\n".to_vec());
}

#[test]
fn cut_str_it_compress_delimiters() {
    let mut opt = make_fields_opt();
    opt.bounds = ubl("2");
    let line = b"--a---b--";

    opt.compress_delimiter = false;
    assert_eq!(cut(&opt, line), b"\n".to_vec());

    opt.compress_delimiter = true;
    assert_eq!(cut(&opt, line), b"a\n".to_vec());

    opt.bounds = ubl("1:");
    assert_eq!(cut(&opt, line), b"-a-b-\n".to_vec());

    assert_eq!(cut(&opt, b"a---b"), b"a-b\n".to_vec());
}

#[test]
fn cut_str_regex_it_compress_delimiters() {
    let mut opt = make_fields_opt();
    let line = b".,a,,,b..c";
    opt.bounds = ubl("2,3,4");
    opt.compress_delimiter = true;
    opt.regex_bag = Some(make_regex_bag());
    opt.replace_delimiter = Some(b"-".to_vec());
    assert_eq!(cut(&opt, line), b"abc\n".to_vec());

    opt.bounds = ubl("1:");
    assert_eq!(cut(&opt, line), b"-a-b-c\n".to_vec());
}

#[test]
fn cut_str_it_cut_characters() {
    let mut opt = make_fields_opt();
    opt.bounds = ubl("2");
    opt.bounds_type = BoundsType::Characters;
    opt.regex_bag = Some(make_cut_characters_regex_bag());
    assert_eq!(cut(&opt, "😁🤩😝😎".as_bytes()), "🤩\n".as_bytes().to_vec());
}

#[test]
fn cut_str_it_cut_characters_and_replace_the_delimiter() {
    let mut args = no_args();
    args.cut_by_characters = Some(ubl("1,2,3:4"));
    args.replace_delimiter = Some(b"-".to_vec());
    let opt = Opt::try_from(args).unwrap();
    let output = cut(&opt, "😁🤩😝😎".as_bytes());
    assert_eq!(&String::from_utf8_lossy(&output), "😁-🤩-😝-😎\n");
}

#[test]
fn cut_str_cut_str_it_supports_zero_terminated_lines() {
    let mut opt = make_fields_opt();
    opt.bounds = ubl("2");
    opt.eol = EOL::Zero;
    assert_eq!(cut(&opt, b"a-b-c"), b"b\0".to_vec());
}

#[test]
fn cut_str_it_complement_ranges() {
    let mut opt = make_fields_opt();
    opt.bounds = ubl("2");
    opt.complement = true;
    assert_eq!(cut(&opt, b"a-b-c"), b"ac\n".to_vec());
}

#[test]
fn cut_str_cut_str_it_join_fields() {
    let mut opt = make_fields_opt();
    opt.bounds = ubl("1,3");
    opt.join = true;
    assert_eq!(cut(&opt, b"a-b-c"), b"a-c\n".to_vec());
}

#[test]
fn cut_str_it_join_fields_with_a_custom_delimiter() {
    let mut opt = make_fields_opt();
    opt.bounds = ubl("1,3");
    opt.join = true;
    opt.replace_delimiter = Some(b"*".to_vec());
    assert_eq!(cut(&opt, b"a-b-c"), b"a*c\n".to_vec());
}

#[test]
fn cut_str_it_replace_delimiter() {
    let mut args = no_args();
    args.delimiter = Some(b"-".to_vec());
    args.cut_by_fields = Some(ubl("1:3"));
    args.replace_delimiter = Some(b"_".to_vec());
    let opt = Opt::try_from(args).unwrap();
    assert_eq!(cut(&opt, b"a-b-c"), b"a_b_c\n".to_vec());
}

#[test]
fn cut_str_regex_it_replace_delimiter() {
    let mut args = no_args();
    args.regex = Some("[,]".to_string());
    args.cut_by_fields = Some(ubl("1:3"));
    args.replace_delimiter = Some(b"_".to_vec());
    let opt = Opt::try_from(args).unwrap();
    assert_eq!(cut(&opt, b"a,b,c"), b"a_b_c\n".to_vec());
}

#[test]
fn cut_str_it_compress_and_replace_delimiter() {
    let mut args = no_args();
    args.delimiter = Some(b"-".to_vec());
    args.cut_by_fields = Some(ubl("1:3"));
    args.replace_delimiter = Some(b"_".to_vec());
    args.compress_delimiter = true;
    let opt = Opt::try_from(args).unwrap();
    assert_eq!(cut(&opt, b"a--b--c"), b"a_b_c\n".to_vec());
}

#[test]
fn cut_str_regex_it_compress_and_replace_delimiter() {
    let mut args = no_args();
    args.regex = Some("[,]".to_string());
    args.cut_by_fields = Some(ubl("1:3"));
    args.replace_delimiter = Some(b"_".to_vec());
    args.compress_delimiter = true;
    let opt = Opt::try_from(args).unwrap();
    assert_eq!(cut(&opt, b"a,,b,,c"), b"a_b_c\n".to_vec());
}

#[test]
fn cut_str_regex_it_join_fields_with_a_custom_delimiter() {
    let mut opt = make_fields_opt();
    opt.bounds = ubl("1,3");
    opt.delimiter = b"[.,]".to_vec();
    opt.regex_bag = Some(make_regex_bag());
    opt.join = true;
    opt.replace_delimiter = Some(b"<->".to_vec());
    assert_eq!(cut(&opt, b"a.b,c"), b"a<->c\n".to_vec());
}

#[test]
fn cut_str_cut_str_it_format_fields() {
    let mut opt = make_fields_opt();
    opt.bounds = ubl("{1} < {3} > {2}");
    assert_eq!(cut(&opt, b"a-b-c"), b"a < c > b\n".to_vec());
}

#[test]
fn cut_str_supports_greedy_delimiter() {
    let mut opt = make_fields_opt();
    opt.bounds = ubl("2");
    opt.greedy_delimiter = true;
    assert_eq!(cut(&opt, b"a---b---c"), b"b\n".to_vec());

    let mut opt = make_fields_opt();
    opt.bounds = ubl("2:3");
    opt.greedy_delimiter = true;
    assert_eq!(cut(&opt, b"a---b---c"), b"b---c\n".to_vec());
}

#[test]
fn cut_str_regex_supports_greedy_delimiter() {
    let mut opt = make_fields_opt();
    opt.bounds = ubl("2:3");
    opt.greedy_delimiter = true;
    opt.delimiter = b"[.,]".to_vec();
    opt.regex_bag = Some(make_regex_bag());
    assert_eq!(cut(&opt, b"a,,.,b..,,c"), b"b..,,c\n".to_vec());
}

#[test]
fn cut_str_cut_str_it_trim_fields() {
    let mut opt = make_fields_opt();
    let line = b"--a--b--c--";

    opt.trim = Some(Trim::Both);
    opt.bounds = ubl("1,3,-1");
    assert_eq!(cut(&opt, line), b"abc\n".to_vec());

    opt.trim = Some(Trim::Left);
    opt.bounds = ubl("1,3,-3");
    assert_eq!(cut(&opt, line), b"abc\n".to_vec());

    opt.trim = Some(Trim::Right);
    opt.bounds = ubl("3,5,-1");
    assert_eq!(cut(&opt, line), b"abc\n".to_vec());
}

#[test]
fn cut_str_regex_it_trim_fields() {
    let mut opt = make_fields_opt();
    let line = b"..a,.b..c,,";
    opt.delimiter = b"[.,]".to_vec();
    opt.regex_bag = Some(make_regex_bag());

    opt.trim = Some(Trim::Both);
    opt.bounds = ubl("1,3,-1");
    assert_eq!(cut(&opt, line), b"abc\n".to_vec());

    opt.trim = Some(Trim::Left);
    opt.bounds = ubl("1,3,-3");
    assert_eq!(cut(&opt, line), b"abc\n".to_vec());

    opt.trim = Some(Trim::Right);
    opt.bounds = ubl("3,5,-1");
    assert_eq!(cut(&opt, line), b"abc\n".to_vec());
}

#[test]
fn cut_str_it_produce_json_output() {
    let mut opt = make_fields_opt();
    opt.json = true;
    opt.replace_delimiter = Some(b",".to_vec());
    opt.bounds = ubl("1,3");
    opt.join = true;
    assert_eq!(cut(&opt, b"a-b-c"), b"[\"a\",\"c\"]\n".to_vec());
}

#[test]
fn cut_str_json_with_single_field_is_still_an_array() {
    let mut opt = make_fields_opt();
    opt.json = true;
    opt.replace_delimiter = Some(b",".to_vec());
    opt.bounds = ubl("1");
    opt.join = true;
    assert_eq!(cut(&opt, b"a-b-c"), b"[\"a\"]\n".to_vec());
}

#[test]
fn cut_str_complement_works_with_json() {
    let mut args = no_args();
    args.delimiter = Some(b"-".to_vec());
    args.cut_by_fields = Some(ubl("2,2:3,-1"));
    args.join_yes = true;
    args.json = true;
    args.complement = true;
    let opt = Opt::try_from(args).unwrap();
    assert_eq!(
        cut(&opt, b"a-b-c"),
        b"[\"a\",\"c\",\"a\",\"a\",\"b\"]\n".to_vec()
    );
}

#[test]
fn cut_str_json_on_characters_works() {
    let mut args = no_args();
    args.cut_by_characters = Some(ubl("1,2,3:4"));
    args.json = true;
    let opt = Opt::try_from(args).unwrap();
    let output = cut(&opt, "😁🤩😝😎".as_bytes());
    assert_eq!(
        &String::from_utf8_lossy(&output),
        "[\"😁\",\"🤩\",\"😝\",\"😎\"]\n"
    );
}

#[test]
fn cut_str_test_cut_bytes_stream_cut_simplest_field_with_eol_and_fallbacks() {
    let mut opt = make_fields_opt();
    opt.fallback_oob = Some(b"generic fallback".to_vec());
    opt.bounds = ubl("{1}-fill-{2}-more fill-{3=last fill}");
    let output = cut(&opt, b"a");
    assert_eq!(
        &String::from_utf8_lossy(&output),
        "a-fill-generic fallback-more fill-last fill\n"
    );
}

#[test]
fn trim_regex_both_trims_a_single_match_at_either_end() {
    assert_eq!(trim_regex(b"ab---", &Trim::Both, &re("-+")), b"ab");
    assert_eq!(trim_regex(b"---ab", &Trim::Both, &re("-+")), b"ab");
    assert_eq!(trim_regex(b"---", &Trim::Both, &re("-+")), b"");
    assert_eq!(trim_regex(b"ab---", &Trim::Right, &re("-+")), b"ab");
}

#[test]
fn cutting_record_by_record_matches_cutting_the_input() {
    let mut opt = make_fields_opt();
    opt.bounds = ubl("2,-1");
    let input = b"a-b-c\nd-e\r\nf-g-h";
    let mut whole = Vec::new();
    read_and_cut_str(input, &mut whole, &opt).unwrap();

    let mut plan = tuc::cut_str::SuitablePlan::for_opt(&opt).unwrap();
    let mut by_record = Vec::new();
    let mut buf = Vec::new();
    for record in [&b"a-b-c\n"[..], b"d-e\r\n", b"f-g-h"] {
        plan.cut_record(record, &opt, &mut by_record, &mut buf).unwrap();
    }
    assert_eq!(by_record, whole);
    assert_eq!(by_record, b"bc\nee\ngh\n".to_vec());
}
