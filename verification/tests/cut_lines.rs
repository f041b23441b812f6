use tuc::cut_lines::{cut_lines, cut_lines_forward_only, read_and_cut_lines};
use tuc::options::{BoundsType, Opt};
use tuc::userboundslist::UserBoundsList;

fn make_lines_opt(bounds: &str) -> Opt {
    Opt {
        bounds_type: BoundsType::Lines,
        delimiter: b"\n".to_vec(),
        bounds: UserBoundsList::from_str(bounds).unwrap(),
        ..Opt::default()
    }
}

fn forward(opt: &Opt, input: &[u8]) -> Vec<u8> {
    let mut output = Vec::new();
    cut_lines_forward_only(input, &mut output, opt).unwrap();
    output
}

#[test]
fn fwd_cut_one_field() {
    let opt = make_lines_opt("1");
    assert_eq!(forward(&opt, b"a\nb"), b"a".to_vec());
}

#[test]
fn fwd_cut_multiple_fields() {
    let opt = make_lines_opt("1,2");
    assert_eq!(forward(&opt, b"a\nb"), b"ab".to_vec());
}

#[test]
fn fwd_support_ranges() {
    let opt = make_lines_opt("1,2:3");
    assert_eq!(forward(&opt, b"a\nb\nc"), b"ab\nc".to_vec());
}

#[test]
fn fwd_supports_join() {
    let mut opt = make_lines_opt("1,3");
    opt.join = true;
    assert_eq!(forward(&opt, b"a\nb\nc"), b"a\nc".to_vec());
}

#[test]
fn fwd_handle_out_of_bounds() {
    let mut opt = make_lines_opt("3");
    opt.join = true;
    let mut output = Vec::new();
    let res = cut_lines_forward_only(b"a\nb", &mut output, &opt);
    assert_eq!(res.unwrap_err().to_string(), "Out of bounds: 3");
}

#[test]
fn cut_lines_handle_negative_idx() {
    let opt = make_lines_opt("-1");
    let mut output = Vec::new();
    cut_lines(b"a\nb", &mut output, &opt).unwrap();
    assert_eq!(output, b"b".to_vec());
}

#[test]
fn fwd_prints_fillers_between_lines() {
    let opt = make_lines_opt("{1}<>{2}");
    assert_eq!(forward(&opt, b"a\nb\nc"), b"a<>b".to_vec());
}

#[test]
fn fwd_stops_on_a_line_that_is_not_utf8() {
    let opt = make_lines_opt("1:2");
    let mut output = Vec::new();
    let res = cut_lines_forward_only(b"a\n\xff\nc", &mut output, &opt);
    assert_eq!(output, b"a".to_vec());
    assert_eq!(res.unwrap_err().to_string(), "stream did not contain valid UTF-8");
}

#[test]
fn read_and_cut_lines_streams_forward_bounds() {
    let mut opt = make_lines_opt("1,3");
    opt.join = true;
    let mut output = Vec::new();
    read_and_cut_lines(b"a\nb\nc", &mut output, &opt).unwrap();
    assert_eq!(output, b"a\nc\n".to_vec());
}

#[test]
fn read_and_cut_lines_cuts_the_whole_input_for_other_bounds() {
    let opt = make_lines_opt("2:-2");
    let mut output = Vec::new();
    read_and_cut_lines(b"a\nb\nc\nd\ne", &mut output, &opt).unwrap();
    assert_eq!(output, b"b\nc\nd\n".to_vec());
}

#[test]
fn read_and_cut_lines_wants_utf8_for_the_whole_input() {
    let opt = make_lines_opt("-1");
    let mut output = Vec::new();
    let res = read_and_cut_lines(b"a\n\xff", &mut output, &opt);
    assert!(res.is_err());
    assert!(output.is_empty());
}

#[test]
fn streaming_an_open_range_asks_for_one_line_too_many() {
    let opt = make_lines_opt("2:");
    let mut output = Vec::new();
    let res = cut_lines_forward_only(b"a\nb\n", &mut output, &opt);
    assert_eq!(res.unwrap_err().to_string(), "Out of bounds: 2:-1");
    assert_eq!(output, b"b".to_vec());

    let mut output = Vec::new();
    cut_lines(b"a\nb\n", &mut output, &opt).unwrap();
    assert_eq!(output, b"b\n".to_vec());
}
