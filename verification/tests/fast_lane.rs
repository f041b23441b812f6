use tuc::fast_lane::{cut_str_fast_lane, read_and_cut_text_as_bytes, FastOpt};
use tuc::options::{Opt, Trim, EOL};
use tuc::userboundslist::UserBoundsList;

fn ubl(s: &str) -> UserBoundsList {
    UserBoundsList::from_str(s).unwrap()
}

fn make_fields_opt(bounds: &UserBoundsList) -> FastOpt<'_> {
    FastOpt {
        delimiter: b'-',
        join: false,
        eol: EOL::Newline,
        bounds,
        only_delimited: false,
        trim: None,
    }
}

fn run(opt: &FastOpt, line: &[u8]) -> Vec<u8> {
    let mut output = Vec::new();
    let mut fields = Vec::new();
    cut_str_fast_lane(line, opt, &mut output, &mut fields, opt.bounds.last_interesting_field).unwrap();
    output
}

#[test]
fn fast_lane_test_read_and_cut_str_echo_non_delimited_strings() {
    let bounds = ubl("1:");
    let opt = make_fields_opt(&bounds);
    let mut output = Vec::new();
    read_and_cut_text_as_bytes(b"foo", &mut output, &opt).unwrap();
    assert_eq!(output, b"foo\n".to_vec());
}

#[test]
fn fail_to_convert_opt_with_long_delimiter_to_fastopt() {
    let opt = Opt {
        delimiter: b"foo".to_vec(),
        ..Default::default()
    };
    assert!(FastOpt::try_from(&opt).is_err());
    assert_eq!(
        FastOpt::try_from(&opt).unwrap_err(),
        "Delimiter must be 1 byte wide for FastOpt"
    );
}

#[test]
fn cut_str_echo_non_delimited_strings() {
    let bounds = ubl("1:");
    let opt = make_fields_opt(&bounds);
    assert_eq!(run(&opt, b"foo"), b"foo\n".to_vec());
    assert_eq!(run(&opt, b""), b"\n".to_vec());
}

#[test]
fn cut_str_skip_non_delimited_strings_when_requested() {
    let bounds = ubl("1:");
    let mut opt = make_fields_opt(&bounds);
    opt.only_delimited = true;
    assert_eq!(run(&opt, b"foo"), b"".to_vec());
    assert_eq!(run(&opt, b""), b"".to_vec());
}

#[test]
fn cut_str_it_cut_a_field() {
    let bounds = ubl("1");
    let opt = make_fields_opt(&bounds);
    assert_eq!(run(&opt, b"a-b-c"), b"a\n".to_vec());
}

#[test]
fn cut_str_it_cut_with_negative_indices() {
    let line = b"a-b-c";
    let bounds = ubl("-1");
    assert_eq!(run(&make_fields_opt(&bounds), line), b"c\n".to_vec());
    let bounds = ubl("-2,-1");
    assert_eq!(run(&make_fields_opt(&bounds), line), b"bc\n".to_vec());
    let bounds = ubl("-1,-2");
    assert_eq!(run(&make_fields_opt(&bounds), line), b"cb\n".to_vec());
    let bounds = ubl("-1,1");
    assert_eq!(run(&make_fields_opt(&bounds), line), b"ca\n".to_vec());
}

#[test]
fn fast_lane_cut_str_it_cut_consecutive_delimiters() {
    let bounds = ubl("1,3");
    let opt = make_fields_opt(&bounds);
    assert_eq!(run(&opt, b"a-b-c"), b"ac\n".to_vec());
}

#[test]
fn fast_lane_cut_str_it_supports_zero_terminated_lines() {
    let bounds = ubl("2");
    let mut opt = make_fields_opt(&bounds);
    opt.eol = EOL::Zero;
    assert_eq!(run(&opt, b"a-b-c"), b"b\0".to_vec());
}

#[test]
fn fast_lane_cut_str_it_join_fields() {
    let bounds = ubl("1,3");
    let mut opt = make_fields_opt(&bounds);
    opt.join = true;
    assert_eq!(run(&opt, b"a-b-c"), b"a-c\n".to_vec());
}

#[test]
fn fast_lane_cut_str_it_format_fields() {
    let bounds = ubl("{2}");
    let opt = make_fields_opt(&bounds);
    assert_eq!(
        String::from_utf8_lossy(&run(&opt, b"a-b-c")),
        String::from_utf8_lossy(b"b\n")
    );

    let bounds = ubl("{1} < {3} > {2}");
    let opt = make_fields_opt(&bounds);
    assert_eq!(
        String::from_utf8_lossy(&run(&opt, b"a-b-c")),
        String::from_utf8_lossy(b"a < c > b\n")
    );
}

#[test]
fn fast_lane_cut_str_it_trim_fields() {
    let line = b"--a--b--c--";

    let bounds = ubl("1,3,-1");
    let mut opt = make_fields_opt(&bounds);
    opt.trim = Some(Trim::Both);
    assert_eq!(run(&opt, line), b"abc\n".to_vec());

    let bounds = ubl("1,3,-3");
    let mut opt = make_fields_opt(&bounds);
    opt.trim = Some(Trim::Left);
    assert_eq!(run(&opt, line), b"abc\n".to_vec());

    let bounds = ubl("3,5,-1");
    let mut opt = make_fields_opt(&bounds);
    opt.trim = Some(Trim::Right);
    assert_eq!(run(&opt, line), b"abc\n".to_vec());
}

#[test]
fn fast_lane_converts_supported_options() {
    let opt = Opt {
        delimiter: b"-".to_vec(),
        join: true,
        ..Default::default()
    };
    let fast = FastOpt::try_from(&opt).unwrap();
    assert_eq!(fast.delimiter, b'-');
    assert!(fast.join);

    let opt = Opt {
        delimiter: b"-".to_vec(),
        complement: true,
        ..Default::default()
    };
    assert_eq!(
        FastOpt::try_from(&opt).unwrap_err(),
        "FastOpt supports solely forward fields, join and single-character delimiters"
    );
}

#[test]
fn fast_lane_reads_every_line_and_strips_carriage_returns() {
    let bounds = ubl("2");
    let opt = make_fields_opt(&bounds);
    let mut output = Vec::new();
    read_and_cut_text_as_bytes(b"a-b\r\nc-d\ne-f", &mut output, &opt).unwrap();
    assert_eq!(output, b"b\nd\nf\n".to_vec());
}

#[test]
fn fast_lane_stops_on_out_of_bounds_field() {
    let bounds = ubl("1,3");
    let opt = make_fields_opt(&bounds);
    let mut output = Vec::new();
    let res = read_and_cut_text_as_bytes(b"a-b-c\nx-y\nz", &mut output, &opt);
    assert!(res.is_err());
    assert_eq!(output, b"ac\nx".to_vec());
}

#[test]
fn fast_lane_echoes_a_line_without_the_delimiter_for_any_single_field() {
    let bounds = ubl("2");
    let opt = make_fields_opt(&bounds);
    assert_eq!(run(&opt, b"abc"), b"abc\n".to_vec());

    // The text path looks the field up and reports that it is missing.
    let text_opt = Opt {
        delimiter: b"-".to_vec(),
        bounds: ubl("2"),
        ..Default::default()
    };
    let mut output = Vec::new();
    let err = tuc::cut_str::read_and_cut_str(b"abc", &mut output, &text_opt).unwrap_err();
    assert_eq!(err.to_string(), "Out of bounds: 2");
}

#[test]
fn fast_lane_refuses_fallbacks() {
    let opt = Opt {
        delimiter: b"-".to_vec(),
        bounds: ubl("1,8=fallback"),
        ..Default::default()
    };
    assert_eq!(
        FastOpt::try_from(&opt).unwrap_err(),
        "FastOpt supports solely forward fields, join and single-character delimiters"
    );
    let opt = Opt {
        delimiter: b"-".to_vec(),
        bounds: ubl("1"),
        fallback_oob: Some(b"x".to_vec()),
        ..Default::default()
    };
    assert!(FastOpt::try_from(&opt).is_err());
}

#[test]
fn fast_lane_cuts_record_by_record() {
    let bounds = ubl("2");
    let opt = make_fields_opt(&bounds);
    let mut out = Vec::new();
    let mut fields = Vec::new();
    for record in [&b"a-b\n"[..], b"c-d\r\n", b"e-f"] {
        tuc::fast_lane::cut_fast_record(record, &opt, &mut out, &mut fields).unwrap();
    }
    let mut whole = Vec::new();
    read_and_cut_text_as_bytes(b"a-b\nc-d\r\ne-f", &mut whole, &opt).unwrap();
    assert_eq!(out, whole);
    assert_eq!(out, b"b\nd\nf\n".to_vec());
}
