use tuc::options::{Opt, ReplaceDelimiterFn, EOL};
use tuc::stream::{cut_bytes_stream, read_and_cut_bytes_stream, ForwardBounds, StreamOpt};
use tuc::userboundslist::UserBoundsList;

fn make_fields_opt() -> StreamOpt {
    StreamOpt {
        delimiter: b'-',
        replace_delimiter: None,
        eol: EOL::Newline,
        join: false,
        fallback_oob: None,
        bounds: ForwardBounds::from_str("1").unwrap(),
    }
}

fn run(opt: &StreamOpt, input: &[u8], capacity: usize) -> Vec<u8> {
    let mut stdout = Vec::new();
    let last = *opt.bounds.get_last_bound().r();
    cut_bytes_stream(input, capacity, &mut stdout, opt, last).unwrap();
    stdout
}

fn run_err(opt: &StreamOpt, input: &[u8], capacity: usize) -> String {
    let mut stdout = Vec::new();
    let last = *opt.bounds.get_last_bound().r();
    cut_bytes_stream(input, capacity, &mut stdout, opt, last)
        .unwrap_err()
        .to_string()
}

#[test]
fn test_try_from_valid_forward_bounds() {
    let bounds = UserBoundsList::from_str("1,2,3:5").unwrap();
    assert!(ForwardBounds::try_from(&bounds).is_ok());
}

#[test]
fn test_try_from_repeated_bounds() {
    let bounds = UserBoundsList::from_str("1,2,2,3").unwrap();
    let error = ForwardBounds::try_from(&bounds).unwrap_err();
    assert_eq!(error, "Bounds are sorted, but can't be repeated");
}

#[test]
fn test_try_from_non_forward_bounds() {
    let bounds = UserBoundsList::from_str("1,3,2").unwrap();
    let error = ForwardBounds::try_from(&bounds).unwrap_err();
    assert_eq!(error, "The provided UserBoundsList is not forward only");
}

#[test]
fn test_cut_bytes_stream_cut_simplest_field_with_eol_out_of_bounds() {
    let mut opt = make_fields_opt();
    opt.bounds = ForwardBounds::from_str("2").unwrap();
    assert_eq!(run_err(&opt, b"a\n", usize::MAX), "Out of bounds: 2");
}

#[test]
fn test_cut_bytes_stream_cut_simplest_field_with_eof_out_of_bounds() {
    let mut opt = make_fields_opt();
    opt.bounds = ForwardBounds::from_str("2").unwrap();
    assert_eq!(run_err(&opt, b"a", usize::MAX), "Out of bounds: 2");
}

#[test]
fn test_cut_bytes_stream_multiple_chunks_sizes() {
    let mut opt = make_fields_opt();
    opt.join = true;
    opt.bounds = ForwardBounds::from_str("1,2").unwrap();
    for capacity in 1..=4 {
        let output = run(&opt, b"a-b\n", capacity);
        assert_eq!(String::from_utf8_lossy(&output), "a-b\n");
    }
}

#[test]
fn stream_opt_accepts_forward_fields() {
    let opt = Opt {
        delimiter: b"-".to_vec(),
        bounds: UserBoundsList::from_str("1,3").unwrap(),
        replace_delimiter: Some(b"+".to_vec()),
        ..Opt::default()
    };
    let stream_opt = StreamOpt::try_from(&opt).unwrap();
    assert_eq!(stream_opt.delimiter, b'-');
    assert_eq!(stream_opt.replace_delimiter, Some(b'+'));
    let mut output = Vec::new();
    read_and_cut_bytes_stream(b"a-b-c\nd-e-f\n", 64, &mut output, &stream_opt).unwrap();
    assert_eq!(output, b"ac\ndf\n".to_vec());
}

#[test]
fn stream_opt_refuses_what_it_cannot_stream() {
    let opt = Opt {
        delimiter: b"--".to_vec(),
        ..Opt::default()
    };
    assert_eq!(
        StreamOpt::try_from(&opt).unwrap_err(),
        "Delimiter must be 1 byte wide for FastOpt"
    );
    let opt = Opt {
        delimiter: b"-".to_vec(),
        only_delimited: true,
        ..Opt::default()
    };
    assert_eq!(
        StreamOpt::try_from(&opt).unwrap_err(),
        "StreamOpt supports solely forward fields, join and single-character delimiters"
    );
    let opt = Opt {
        delimiter: b"-".to_vec(),
        bounds: UserBoundsList::from_str("3,1").unwrap(),
        ..Opt::default()
    };
    assert_eq!(
        StreamOpt::try_from(&opt).unwrap_err(),
        "Bounds cannot be converted to ForwardBounds"
    );
}

#[test]
fn test_cut_bytes_stream_cut_simplest_field_no_eol() {
    let mut opt = make_fields_opt();
    opt.bounds = ForwardBounds::from_str("1").unwrap();
    let output = run(&opt, b"a", usize::MAX);
    assert_eq!(String::from_utf8_lossy(&output), "a\n");
}

#[test]
fn test_cut_bytes_stream_cut_simplest_field_with_eol() {
    let mut opt = make_fields_opt();
    opt.bounds = ForwardBounds::from_str("1").unwrap();
    let output = run(&opt, b"a\n", usize::MAX);
    assert_eq!(String::from_utf8_lossy(&output), "a\n");
}

#[test]
fn stream_test_cut_bytes_stream_cut_simplest_field_with_eol_and_fallbacks() {
    let mut opt = make_fields_opt();
    opt.fallback_oob = Some(b"generic fallback".to_vec());
    opt.bounds = ForwardBounds::from_str("{1}-fill-{2}-more fill-{3=last fill}").unwrap();
    let output = run(&opt, b"a\n", usize::MAX);
    assert_eq!(String::from_utf8_lossy(&output), "a-fill-generic fallback-more fill-last fill\n");
}

#[test]
fn test_cut_bytes_stream_cut_simplest_field_with_eof_and_fallbacks() {
    let mut opt = make_fields_opt();
    opt.fallback_oob = Some(b"generic fallback".to_vec());
    opt.bounds = ForwardBounds::from_str("{1}-fill-{2}-more fill-{3=last fill}").unwrap();
    let output = run(&opt, b"a", usize::MAX);
    assert_eq!(String::from_utf8_lossy(&output), "a-fill-generic fallback-more fill-last fill\n");
}

#[test]
fn test_cut_bytes_stream_only_fillers_and_fallbacks() {
    let mut opt = make_fields_opt();
    opt.bounds = ForwardBounds::from_str("foo-{2=waitforit}-bar").unwrap();
    let output = run(&opt, b"a", usize::MAX);
    assert_eq!(String::from_utf8_lossy(&output), "foo-waitforit-bar\n");
}

#[test]
fn test_cut_bytes_stream_cut_multiple_fields_with_range_right_unlimited_case_1() {
    let mut opt = make_fields_opt();
    opt.bounds = ForwardBounds::from_str("1:").unwrap();
    let output = run(&opt, b"a-b-c", usize::MAX);
    assert_eq!(String::from_utf8_lossy(&output), "a-b-c\n");
}

#[test]
fn test_cut_bytes_stream_cut_multiple_fields_with_range_right_unlimited_case_2() {
    let mut opt = make_fields_opt();
    opt.bounds = ForwardBounds::from_str("2:").unwrap();
    let output = run(&opt, b"a-b-c", usize::MAX);
    assert_eq!(String::from_utf8_lossy(&output), "b-c\n");
}

#[test]
fn test_cut_bytes_stream_cut_multiple_fields_with_range_left_unlimited_case_1() {
    let mut opt = make_fields_opt();
    opt.bounds = ForwardBounds::from_str(":1").unwrap();
    let output = run(&opt, b"a-b-c", usize::MAX);
    assert_eq!(String::from_utf8_lossy(&output), "a\n");
}

#[test]
fn test_cut_bytes_stream_cut_multiple_fields_with_range_left_unlimited_case_2() {
    let mut opt = make_fields_opt();
    opt.bounds = ForwardBounds::from_str(":2").unwrap();
    let output = run(&opt, b"a-b-c", usize::MAX);
    assert_eq!(String::from_utf8_lossy(&output), "a-b\n");
}

#[test]
fn test_cut_bytes_stream_cut_multiple_fields_with_range_right_unlimited() {
    let mut opt = make_fields_opt();
    opt.bounds = ForwardBounds::from_str("2:").unwrap();
    let output = run(&opt, b"a-b-c", usize::MAX);
    assert_eq!(String::from_utf8_lossy(&output), "b-c\n");
}

#[test]
fn test_cut_bytes_stream_cut_multiple_fields_no_eol() {
    let mut opt = make_fields_opt();
    opt.bounds = ForwardBounds::from_str("1,2").unwrap();
    let output = run(&opt, b"a-b", usize::MAX);
    assert_eq!(String::from_utf8_lossy(&output), "ab\n");
}

#[test]
fn test_cut_bytes_stream_cut_multiple_fields_with_eol() {
    let mut opt = make_fields_opt();
    opt.bounds = ForwardBounds::from_str("1,2").unwrap();
    let output = run(&opt, b"a-b\n", usize::MAX);
    assert_eq!(String::from_utf8_lossy(&output), "ab\n");
}

#[test]
fn test_cut_bytes_stream_cut_multiple_fields_keep_few_no_eol() {
    let mut opt = make_fields_opt();
    opt.bounds = ForwardBounds::from_str("1,2").unwrap();
    let output = run(&opt, b"a-b-c", usize::MAX);
    assert_eq!(String::from_utf8_lossy(&output), "ab\n");
}

#[test]
fn test_cut_bytes_stream_cut_multiple_fields_keep_few_with_eol() {
    let mut opt = make_fields_opt();
    opt.bounds = ForwardBounds::from_str("1,2").unwrap();
    let output = run(&opt, b"a-b-c\n", usize::MAX);
    assert_eq!(String::from_utf8_lossy(&output), "ab\n");
}

#[test]
fn test_cut_bytes_stream_cut_multiple_fields_with_eol_small_buffer_dropped_fields() {
    let mut opt = make_fields_opt();
    opt.bounds = ForwardBounds::from_str("1,2").unwrap();
    let output = run(&opt, b"a-b-c-d-e-f\ng-h-i-l-m\n", 3);
    assert_eq!(String::from_utf8_lossy(&output), "ab\ngh\n");
}

#[test]
fn test_cut_bytes_stream_cut_multiple_fields_small_buffer_few_no_eol_with_fallbacks() {
    let mut opt = make_fields_opt();
    opt.bounds = ForwardBounds::from_str("{9=fallback}").unwrap();
    let output = run(&opt, b"foobar", 2);
    assert_eq!(String::from_utf8_lossy(&output), "fallback\n");
}

#[test]
fn test_cut_bytes_stream_cut_multiple_fields_small_buffer_few_with_eol_with_fallbacks() {
    let mut opt = make_fields_opt();
    opt.bounds = ForwardBounds::from_str("{9=fallback}").unwrap();
    let output = run(&opt, b"foobar\n", 2);
    assert_eq!(String::from_utf8_lossy(&output), "fallback\n");
}

#[test]
fn test_cut_bytes_stream_cut_simplest_field_multiline_with_eol() {
    let mut opt = make_fields_opt();
    opt.bounds = ForwardBounds::from_str("1").unwrap();
    let output = run(&opt, b"a\nb\n", usize::MAX);
    assert_eq!(String::from_utf8_lossy(&output), "a\nb\n");
}

#[test]
fn test_cut_bytes_stream_cut_multiple_fields_multiline_with_eol() {
    let mut opt = make_fields_opt();
    opt.bounds = ForwardBounds::from_str("1,2").unwrap();
    let output = run(&opt, b"a-b\nc-d\n", usize::MAX);
    assert_eq!(String::from_utf8_lossy(&output), "ab\ncd\n");
}

#[test]
fn test_cut_bytes_stream_cut_multiple_fields_with_join_and_eol() {
    let mut opt = make_fields_opt();
    opt.join = true;
    opt.bounds = ForwardBounds::from_str("1,2").unwrap();
    let output = run(&opt, b"a-b\n", usize::MAX);
    assert_eq!(String::from_utf8_lossy(&output), "a-b\n");
}

#[test]
fn test_cut_bytes_stream_it_supports_ranges() {
    let mut opt = make_fields_opt();
    opt.bounds = ForwardBounds::from_str("1:2,3").unwrap();
    let output = run(&opt, b"a-b-c", usize::MAX);
    assert_eq!(String::from_utf8_lossy(&output), "a-bc\n");
}

#[test]
fn test_cut_bytes_stream_it_supports_ranges_with_join_case_1() {
    let mut opt = make_fields_opt();
    opt.join = true;
    opt.bounds = ForwardBounds::from_str("1:2,3").unwrap();
    let output = run(&opt, b"a-b-c", usize::MAX);
    assert_eq!(String::from_utf8_lossy(&output), "a-b-c\n");
}

#[test]
fn test_cut_bytes_stream_it_supports_ranges_with_join_case_2() {
    let mut opt = make_fields_opt();
    opt.join = true;
    opt.bounds = ForwardBounds::from_str("1,2:3").unwrap();
    let output = run(&opt, b"a-b-c", usize::MAX);
    assert_eq!(String::from_utf8_lossy(&output), "a-b-c\n");
}

#[test]
fn test_cut_bytes_stream_it_supports_replacing_delimiter_case_1() {
    let mut opt = make_fields_opt();
    opt.join = true;
    opt.replace_delimiter = Some(b'/');
    opt.bounds = ForwardBounds::from_str("1,2:3").unwrap();
    let output = run(&opt, b"a-b-c", usize::MAX);
    assert_eq!(String::from_utf8_lossy(&output), "a/b/c\n");
}

#[test]
fn test_cut_bytes_stream_it_supports_replacing_delimiter_case_2() {
    let mut opt = make_fields_opt();
    opt.join = true;
    opt.replace_delimiter = Some(b'/');
    opt.bounds = ForwardBounds::from_str("1,2:").unwrap();
    let output = run(&opt, b"a-b-c", usize::MAX);
    assert_eq!(String::from_utf8_lossy(&output), "a/b/c\n");
}

#[test]
fn a_field_longer_than_a_chunk_keeps_its_bytes() {
    let mut opt = make_fields_opt();
    opt.bounds = ForwardBounds::from_str("1,2").unwrap();
    for capacity in 1..=8 {
        assert_eq!(run(&opt, b"abc-d", capacity), b"abcd\n".to_vec());
    }
}

#[test]
fn the_chunk_size_does_not_change_the_output() {
    let mut opt = make_fields_opt();
    opt.bounds = ForwardBounds::from_str("1,3").unwrap();
    for input in [&b"a-b-c\nd-e-f\n"[..], b"abc-d-e", b"", b"-a-\n--x\n"] {
        let whole = run(&opt, input, 4096);
        for capacity in 1..=input.len().max(1) {
            assert_eq!(run(&opt, input, capacity), whole);
        }
    }
}

#[test]
fn an_empty_field_at_a_chunk_start_is_still_a_field() {
    let mut opt = make_fields_opt();
    opt.bounds = ForwardBounds::from_str("1,2,3").unwrap();
    for capacity in 1..=64 {
        assert_eq!(run(&opt, b"a--b\n", capacity), b"ab\n".to_vec());
    }
}

#[test]
fn an_error_does_not_depend_on_the_chunk_size() {
    let mut opt = make_fields_opt();
    opt.bounds = ForwardBounds::from_str("1,2,4").unwrap();
    for capacity in 1..=16 {
        assert_eq!(run_err(&opt, b"a--b\n", capacity), "Out of bounds: 4");
    }
}

#[test]
fn the_stream_and_the_general_cut_agree() {
    let opt = Opt {
        delimiter: b"-".to_vec(),
        bounds: UserBoundsList::from_str("1,2").unwrap(),
        ..Opt::default()
    };
    let stream_opt = StreamOpt::try_from(&opt).unwrap();
    for input in [&b"abc-d\nef-g\n"[..], b"-a\n", b"abc-d", b"x-y-z\n-\n"] {
        let mut cut = Vec::new();
        tuc::cut_str::read_and_cut_str(input, &mut cut, &opt).unwrap();
        for capacity in 1..=input.len() {
            let mut streamed = Vec::new();
            read_and_cut_bytes_stream(input, capacity, &mut streamed, &stream_opt).unwrap();
            assert_eq!(streamed, cut);
        }
    }
}

#[test]
fn joined_parts_match_the_general_cut() {
    let opt = Opt {
        delimiter: b"-".to_vec(),
        bounds: UserBoundsList::from_str("2,4:5").unwrap(),
        join: true,
        replace_delimiter: Some(b"/".to_vec()),
        replace_delimiter_fn: Some(ReplaceDelimiterFn::Fixed),
        ..Opt::default()
    };
    let stream_opt = StreamOpt::try_from(&opt).unwrap();
    let input = b"a-b-c-d-e-f\n1-2-3-4-5\n";
    let mut cut = Vec::new();
    tuc::cut_str::read_and_cut_str(input, &mut cut, &opt).unwrap();
    assert_eq!(cut, b"b/d/e\n2/4/5\n".to_vec());
    for capacity in 1..=input.len() {
        let mut streamed = Vec::new();
        read_and_cut_bytes_stream(input, capacity, &mut streamed, &stream_opt).unwrap();
        assert_eq!(streamed, cut);
    }
}

#[test]
fn fillers_and_fields_print_in_order_whatever_the_chunks() {
    let opt = Opt {
        delimiter: b"-".to_vec(),
        bounds: UserBoundsList::from_str("[{1}]{3}").unwrap(),
        ..Opt::default()
    };
    let stream_opt = StreamOpt::try_from(&opt).unwrap();
    let input = b"a-b-c\nd-e-f-g\n";
    let mut cut = Vec::new();
    tuc::cut_str::read_and_cut_str(input, &mut cut, &opt).unwrap();
    assert_eq!(cut, b"[a]c\n[d]f\n".to_vec());
    for capacity in 1..=input.len() {
        let mut streamed = Vec::new();
        read_and_cut_bytes_stream(input, capacity, &mut streamed, &stream_opt).unwrap();
        assert_eq!(streamed, cut);
    }
}

#[test]
fn a_missing_terminator_is_added() {
    let mut opt = make_fields_opt();
    opt.bounds = ForwardBounds::from_str("{2}<{3=x}").unwrap();
    for capacity in 1..=6 {
        assert_eq!(run(&opt, b"a-b\nc-d", capacity), run(&opt, b"a-b\nc-d\n", capacity));
        assert_eq!(run(&opt, b"a-b\nc-d", capacity), b"b<x\nd<x\n".to_vec());
    }
}

#[test]
fn an_open_range_runs_to_the_last_field_whatever_the_chunks() {
    let opt = Opt {
        delimiter: b"-".to_vec(),
        bounds: UserBoundsList::from_str("<{1}>{3:}").unwrap(),
        join: true,
        ..Opt::default()
    };
    let stream_opt = StreamOpt::try_from(&opt).unwrap();
    let input = b"a-b-c-d\ne-f-g\n";
    let mut cut = Vec::new();
    tuc::cut_str::read_and_cut_str(input, &mut cut, &opt).unwrap();
    assert_eq!(cut, b"<a->c-d\n<e->g\n".to_vec());
    for capacity in 1..=input.len() {
        let mut streamed = Vec::new();
        read_and_cut_bytes_stream(input, capacity, &mut streamed, &stream_opt).unwrap();
        assert_eq!(streamed, cut);
    }
}

#[test]
fn the_stream_agrees_with_the_general_cut_on_small_inputs() {
    let alphabet = [b'a', b'-', b'\n'];
    for bounds in ["1", "2", "1,3", "2:", "1:2", "{1}x{2}", "<{2:}>"] {
        for (join, replace) in [(false, false), (true, false), (false, true), (true, true)] {
            let opt = Opt {
                delimiter: b"-".to_vec(),
                bounds: UserBoundsList::from_str(bounds).unwrap(),
                join,
                replace_delimiter: if replace { Some(b"/".to_vec()) } else { None },
                replace_delimiter_fn: if replace { Some(ReplaceDelimiterFn::Fixed) } else { None },
                ..Opt::default()
            };
            let stream_opt = StreamOpt::try_from(&opt).unwrap();
            for len in 0..=6usize {
                let total = 3usize.pow(len as u32);
                for code in 0..total {
                    let mut input = Vec::new();
                    let mut c = code;
                    for _ in 0..len {
                        input.push(alphabet[c % 3]);
                        c /= 3;
                    }
                    let mut cut = Vec::new();
                    if tuc::cut_str::read_and_cut_str(&input, &mut cut, &opt).is_err() {
                        continue;
                    }
                    for capacity in 1..=len.max(1) {
                        let mut streamed = Vec::new();
                        read_and_cut_bytes_stream(&input, capacity, &mut streamed, &stream_opt).unwrap();
                        assert_eq!(streamed, cut, "{:?} {} {} {:?} {}", bounds, join, replace, input, capacity);
                    }
                }
            }
        }
    }
}
