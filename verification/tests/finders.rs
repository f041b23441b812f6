use std::ops::Range;
use tuc::finders::{DelimiterFinder, FixedGreedyFinder, FixedGreedyFinderRev, RegexFinder};
use tuc::options::{BoundsType, Opt};
use tuc::pattern::CompiledRegex;
use tuc::plan::{
    extract_every_field, extract_fields_using_negative_indices, extract_fields_using_pos_indices,
    FieldPlan,
};
use tuc::userboundslist::UserBoundsList;

const NONE: Range<usize> = usize::MAX..usize::MAX;

fn make_fields_opt() -> Opt {
    Opt {
        bounds_type: BoundsType::Fields,
        delimiter: b"-".to_vec(),
        ..Opt::default()
    }
}

fn ubl(s: &str) -> UserBoundsList {
    UserBoundsList::from_str(s).unwrap()
}

fn re(s: &str) -> CompiledRegex {
    CompiledRegex::new(s).unwrap()
}









#[test]
fn finders_extract_fields_basic() {
    let line = b"a--b--c";
    let mut opt = make_fields_opt();
    opt.delimiter = b"--".to_vec();
    opt.bounds = ubl("1,2,3");
    let mut plan = FieldPlan::from_opt_memmem(&opt).unwrap();
    assert!(extract_fields_using_pos_indices(line, &mut plan).is_ok());
    assert_eq!(plan.positive_fields, vec![0..1, 3..4, 6..7]);
}

#[test]
fn multibyte_str_extract_fields_basic() {
    let line = b"a--b--c";
    let mut opt = make_fields_opt();
    opt.delimiter = b"--".to_vec();
    opt.bounds = ubl("1,2,3");
    let mut plan = FieldPlan::from_opt_memmem(&opt).unwrap();
    assert!(extract_fields_using_pos_indices(line, &mut plan).is_ok());
    assert_eq!(plan.positive_fields, vec![0..1, 3..4, 6..7]);
}

#[test]
fn finders_extract_fields_out_of_order() {
    let line = b"foo--bar--baz";
    let mut opt = make_fields_opt();
    opt.delimiter = b"--".to_vec();
    opt.bounds = ubl("3,1");
    let mut plan = FieldPlan::from_opt_memmem(&opt).unwrap();
    assert!(extract_fields_using_pos_indices(line, &mut plan).is_ok());
    assert_eq!(plan.positive_fields[2], 10..13);
    assert_eq!(plan.positive_fields[0], 0..3);
}

#[test]
fn multibyte_str_extract_fields_out_of_order() {
    let line = b"foo--bar--baz";
    let mut opt = make_fields_opt();
    opt.delimiter = b"--".to_vec();
    opt.bounds = ubl("3,1");
    let mut plan = FieldPlan::from_opt_memmem(&opt).unwrap();
    assert!(extract_fields_using_pos_indices(line, &mut plan).is_ok());
    assert_eq!(plan.positive_fields[2], 10..13);
    assert_eq!(plan.positive_fields[0], 0..3);
}

#[test]
fn finders_extract_fields_multibyte_delim_and_missing_field() {
    let line = b"x==y==z";
    let mut opt = make_fields_opt();
    opt.delimiter = b"==".to_vec();
    opt.bounds = ubl("1,4");
    let mut plan = FieldPlan::from_opt_memmem(&opt).unwrap();
    let result = extract_fields_using_pos_indices(line, &mut plan);
    assert!(result.is_err());
    assert_eq!(result.unwrap_err().to_string(), "Out of bounds: 4");
}

#[test]
fn multibyte_str_extract_fields_multibyte_delim_and_missing_field() {
    let line = b"x==y==z";
    let mut opt = make_fields_opt();
    opt.delimiter = b"==".to_vec();
    opt.bounds = ubl("1,4");
    let mut plan = FieldPlan::from_opt_memmem(&opt).unwrap();
    let result = extract_fields_using_pos_indices(line, &mut plan);
    assert!(result.is_err());
    assert_eq!(result.unwrap_err().to_string(), "Out of bounds: 4");
}

#[test]
fn finders_extract_fields_no_delimiter() {
    let line = b"singlefield";
    let mut opt = make_fields_opt();
    opt.delimiter = b"--".to_vec();
    opt.bounds = ubl("1");
    let mut plan = FieldPlan::from_opt_memmem(&opt).unwrap();
    assert!(extract_fields_using_pos_indices(line, &mut plan).is_ok());
    assert_eq!(plan.positive_fields, vec![0..11]);
    assert_eq!(plan.negative_fields, Vec::<Range<usize>>::new());
}

#[test]
fn multibyte_str_extract_fields_no_delimiter() {
    let line = b"singlefield";
    let mut opt = make_fields_opt();
    opt.delimiter = b"--".to_vec();
    opt.bounds = ubl("1");
    let mut plan = FieldPlan::from_opt_memmem(&opt).unwrap();
    assert!(extract_fields_using_pos_indices(line, &mut plan).is_ok());
    assert_eq!(plan.positive_fields, vec![0..11]);
    assert_eq!(plan.negative_fields, Vec::<Range<usize>>::new());
}

#[test]
fn finders_test_field_plan_from_bounds_single_and_range() {
    let mut opt = make_fields_opt();
    opt.bounds = ubl("1,2,4");
    let plan = FieldPlan::from_opt_memmem(&opt).unwrap();
    assert_eq!(plan.positive_indices, vec![0, 1, 3]);
}

#[test]
fn multibyte_str_test_field_plan_from_bounds_single_and_range() {
    let mut opt = make_fields_opt();
    opt.bounds = ubl("1,2,4");
    let plan = FieldPlan::from_opt_memmem(&opt).unwrap();
    assert_eq!(plan.positive_indices, vec![0, 1, 3]);
}

#[test]
fn finders_test_field_plan_from_bounds_range_and_single_out_of_order() {
    let mut opt = make_fields_opt();
    opt.delimiter = b"--".to_vec();
    opt.bounds = ubl("2:3,1");
    let plan = FieldPlan::from_opt_memmem(&opt).unwrap();
    assert_eq!(plan.positive_indices, vec![0, 1, 2]);
}

#[test]
fn multibyte_str_test_field_plan_from_bounds_range_and_single_out_of_order() {
    let mut opt = make_fields_opt();
    opt.delimiter = b"--".to_vec();
    opt.bounds = ubl("2:3,1");
    let plan = FieldPlan::from_opt_memmem(&opt).unwrap();
    assert_eq!(plan.positive_indices, vec![0, 1, 2]);
}

#[test]
fn finders_test_field_plan_from_bounds_multiple_ranges_and_order() {
    let mut opt = make_fields_opt();
    opt.bounds = ubl("4:5,:2");
    let plan = FieldPlan::from_opt_memmem(&opt).unwrap();
    assert_eq!(plan.positive_indices, vec![0, 1, 3, 4]);
}

#[test]
fn multibyte_str_test_field_plan_from_bounds_multiple_ranges_and_order() {
    let mut opt = make_fields_opt();
    opt.bounds = ubl("4:5,:2");
    let plan = FieldPlan::from_opt_memmem(&opt).unwrap();
    assert_eq!(plan.positive_indices, vec![0, 1, 3, 4]);
}

#[test]
fn finders_test_field_plan_from_bounds_duplicate_fields() {
    let mut opt = make_fields_opt();
    opt.bounds = ubl("1:2,2:3");
    let plan = FieldPlan::from_opt_memmem(&opt).unwrap();
    assert_eq!(plan.positive_indices, vec![0, 1, 2]);
}

#[test]
fn multibyte_str_test_field_plan_from_bounds_duplicate_fields() {
    let mut opt = make_fields_opt();
    opt.bounds = ubl("1:2,2:3");
    let plan = FieldPlan::from_opt_memmem(&opt).unwrap();
    assert_eq!(plan.positive_indices, vec![0, 1, 2]);
}

#[test]
fn finders_test_field_plan_from_bounds_full_range() {
    let mut opt = make_fields_opt();
    opt.bounds = ubl("1:-1");
    let plan = FieldPlan::from_opt_memmem(&opt).unwrap();
    assert_eq!(plan.positive_indices, vec![0]);
    assert_eq!(plan.negative_indices, vec![0]);
}

#[test]
fn test_extract_positive_fields() {
    let mut opt = make_fields_opt();
    opt.bounds = ubl("1,2,4");
    let line = b"a-b-c-d-e";
    let expected_indices = vec![0, 1, 3];
    let expected_ranges = vec![0..1, 2..3, NONE, 6..7];

    let mut plan = FieldPlan::from_opt_memmem(&opt).unwrap();
    assert_eq!(plan.positive_indices, expected_indices);
    extract_fields_using_pos_indices(line, &mut plan).unwrap();
    assert_eq!(plan.positive_fields, expected_ranges);

    let mut plan = FieldPlan::from_opt_fixed_greedy(&opt).unwrap();
    assert_eq!(plan.positive_indices, expected_indices);
    extract_fields_using_pos_indices(line, &mut plan).unwrap();
    assert_eq!(plan.positive_fields, expected_ranges);

    let mut plan = FieldPlan::from_opt_regex(&opt, re("-"), false).unwrap();
    assert_eq!(plan.positive_indices, expected_indices);
    extract_fields_using_pos_indices(line, &mut plan).unwrap();
    assert_eq!(plan.positive_fields, expected_ranges);
}

#[test]
fn test_extract_positive_fields_with_fields_of_different_range() {
    let mut opt = make_fields_opt();
    opt.bounds = ubl("2");
    let line1 = b"a-b";
    let line2 = b"foo-bar";
    let line3 = b"baaz-hello";
    let expected_pos_indices = vec![1];

    let mut plan = FieldPlan::from_opt_memmem(&opt).unwrap();
    assert_eq!(plan.positive_indices, expected_pos_indices);
    extract_fields_using_pos_indices(line1, &mut plan).unwrap();
    assert_eq!(plan.positive_fields, vec![NONE, 2..3]);
    extract_fields_using_pos_indices(line2, &mut plan).unwrap();
    assert_eq!(plan.positive_fields, vec![NONE, 4..7]);
    extract_fields_using_pos_indices(line3, &mut plan).unwrap();
    assert_eq!(plan.positive_fields, vec![NONE, 5..10]);

    let mut plan = FieldPlan::from_opt_fixed_greedy(&opt).unwrap();
    assert_eq!(plan.positive_indices, expected_pos_indices);
    extract_fields_using_pos_indices(line1, &mut plan).unwrap();
    assert_eq!(plan.positive_fields, vec![NONE, 2..3]);
    extract_fields_using_pos_indices(line2, &mut plan).unwrap();
    assert_eq!(plan.positive_fields, vec![NONE, 4..7]);
    extract_fields_using_pos_indices(line3, &mut plan).unwrap();
    assert_eq!(plan.positive_fields, vec![NONE, 5..10]);
}

#[test]
fn test_extract_negative_fields() {
    let mut opt = make_fields_opt();
    opt.bounds = ubl("-5,-4,-2");
    let line = b"a-b-c-d-e";
    let expected_indices = vec![1, 3, 4];
    let expected_ranges = vec![NONE, 6..7, NONE, 2..3, 0..1];

    let mut plan = FieldPlan::from_opt_memmem(&opt).unwrap();
    assert_eq!(plan.negative_indices, expected_indices);
    extract_fields_using_negative_indices(line, &mut plan).unwrap();
    assert_eq!(plan.negative_fields, expected_ranges);

    let mut plan = FieldPlan::from_opt_fixed_greedy(&opt).unwrap();
    assert_eq!(plan.negative_indices, expected_indices);
    extract_fields_using_negative_indices(line, &mut plan).unwrap();
    assert_eq!(plan.negative_fields, expected_ranges);
}

#[test]
fn test_extract_positive_fields_greedy_multybyte() {
    let mut opt = make_fields_opt();
    opt.bounds = ubl("1,3");
    let line = b"a--b--c";
    let mut plan = FieldPlan::from_opt_fixed_greedy(&opt).unwrap();
    assert_eq!(plan.positive_indices, vec![0, 2]);
    extract_fields_using_pos_indices(line, &mut plan).unwrap();
    assert_eq!(plan.positive_fields, vec![0..1, NONE, 6..7]);
}

#[test]
fn test_extract_negative_fields_greedy_multybyte() {
    let mut opt = make_fields_opt();
    opt.bounds = ubl("-3,-1");
    let line = b"a--b--c";
    let mut plan = FieldPlan::from_opt_fixed_greedy(&opt).unwrap();
    assert_eq!(plan.negative_indices, vec![0, 2]);
    extract_fields_using_negative_indices(line, &mut plan).unwrap();
    assert_eq!(plan.negative_fields, vec![6..7, NONE, 0..1]);
}

#[test]
fn test_extract_every_field() {
    let mut opt = make_fields_opt();
    opt.bounds = ubl("1,3,-3,-1");
    let line = b"a-b-c-d";
    let mut plan = FieldPlan::from_opt_memmem(&opt).unwrap();
    assert_eq!(plan.positive_indices, vec![0, 2]);
    assert_eq!(plan.negative_indices, vec![0, 2]);
    let num_fields = extract_every_field(line, &mut plan).unwrap();
    assert_eq!(num_fields, Some(4));
    assert_eq!(plan.positive_fields, vec![0..1, 2..3, 4..5, 6..7]);
    assert_eq!(plan.negative_fields, vec![6..7, NONE, 2..3]);
}

#[test]
fn test_extract_positive_fields_out_of_bound() {
    let mut opt = make_fields_opt();
    opt.bounds = ubl("2,3");
    let mut plan = FieldPlan::from_opt_memmem(&opt).unwrap();
    assert_eq!(plan.positive_indices, vec![1, 2]);

    extract_fields_using_pos_indices(b"a-b-c", &mut plan).unwrap();
    assert_eq!(plan.positive_fields, vec![NONE, 2..3, 4..5]);

    let res = extract_fields_using_pos_indices(b"foo", &mut plan);
    assert_eq!(res.unwrap_err().to_string(), "Out of bounds: 2");
    assert_eq!(plan.positive_fields, vec![NONE, NONE, NONE]);

    extract_fields_using_pos_indices(b"baaz-hello-world", &mut plan).unwrap();
    assert_eq!(plan.positive_fields, vec![NONE, 5..10, 11..16]);
}

#[test]
fn test_extract_negative_fields_out_of_bound() {
    let mut opt = make_fields_opt();
    opt.bounds = ubl("-2,-3");
    let mut plan = FieldPlan::from_opt_memmem(&opt).unwrap();
    assert_eq!(plan.negative_indices, vec![1, 2]);

    extract_fields_using_negative_indices(b"a-b-c", &mut plan).unwrap();
    assert_eq!(plan.negative_fields, vec![NONE, 2..3, 0..1]);

    let res = extract_fields_using_negative_indices(b"foo", &mut plan);
    assert_eq!(res.unwrap_err().to_string(), "Out of bounds: -2");
    assert_eq!(plan.negative_fields, vec![NONE, NONE, NONE]);

    extract_fields_using_negative_indices(b"baaz-hello-world", &mut plan).unwrap();
    assert_eq!(plan.negative_fields, vec![NONE, 5..10, 0..4]);
}

#[test]
fn test_extract_every_field_out_of_bound_positive() {
    let mut opt = make_fields_opt();
    opt.bounds = ubl("2,3,-1");
    let mut plan = FieldPlan::from_opt_memmem(&opt).unwrap();
    assert_eq!(plan.positive_indices, vec![1, 2]);
    assert_eq!(plan.negative_indices, vec![0]);

    extract_every_field(b"a-b-c", &mut plan).unwrap();
    assert_eq!(plan.positive_fields, vec![0..1, 2..3, 4..5]);
    assert_eq!(plan.negative_fields, vec![4..5]);

    let res = extract_every_field(b"foo", &mut plan);
    assert_eq!(res.unwrap_err().to_string(), "Out of bounds: 2");
    assert_eq!(plan.positive_fields, vec![0..3]);
    assert_eq!(plan.negative_fields, vec![0..3]);

    extract_every_field(b"baaz-hello-world", &mut plan).unwrap();
    assert_eq!(plan.positive_fields, vec![0..4, 5..10, 11..16]);
    assert_eq!(plan.negative_fields, vec![11..16]);
}

#[test]
fn test_extract_every_field_out_of_bound_negative() {
    let mut opt = make_fields_opt();
    opt.bounds = ubl("-2,-3");
    let mut plan = FieldPlan::from_opt_memmem(&opt).unwrap();
    assert_eq!(plan.positive_indices, Vec::<usize>::new());
    assert_eq!(plan.negative_indices, vec![1, 2]);

    extract_every_field(b"a-b-c", &mut plan).unwrap();
    assert_eq!(plan.positive_fields, vec![0..1, 2..3, 4..5]);
    assert_eq!(plan.negative_fields, vec![NONE, 2..3, 0..1]);

    let res = extract_every_field(b"foo", &mut plan);
    assert_eq!(res.unwrap_err().to_string(), "Out of bounds: -2");
    assert_eq!(plan.positive_fields, vec![0..3]);
    assert_eq!(plan.negative_fields, vec![NONE, NONE, NONE]);

    extract_every_field(b"baaz-hello-world", &mut plan).unwrap();
    assert_eq!(plan.positive_fields, vec![0..4, 5..10, 11..16]);
    assert_eq!(plan.negative_fields, vec![NONE, 5..10, 0..4]);
}

fn regex_ranges(pattern: &str, line: &[u8]) -> Vec<Range<usize>> {
    RegexFinder::new(re(pattern)).find_ranges(line)
}

#[test]
fn regex_forward_small_delimiter_empty_line() {
    assert_eq!(Vec::<Range<usize>>::new(), regex_ranges("[-]", b""));
}

#[test]
fn regex_forward_small_delimiter_only_delimiter() {
    assert_eq!(vec![0..1], regex_ranges("[-]", b"-"));
}

#[test]
fn regex_forward_small_delimiter_regular_scenarios() {
    assert_eq!(Vec::<Range<usize>>::new(), regex_ranges("[-]", b"a"));
    assert_eq!(vec![1..2], regex_ranges("[-]", b"a-b"));
    assert_eq!(vec![1..2, 3..4], regex_ranges("[-]", b"a-b-c"));
    assert_eq!(vec![1..2, 3..4, 5..6], regex_ranges("[-]", b"a-b-c-"));
    assert_eq!(vec![0..1, 2..3, 4..5], regex_ranges("[-]", b"-a-b-c"));
}

#[test]
fn forward_big_delimiter_empty_line() {
    assert_eq!(Vec::<Range<usize>>::new(), regex_ranges("-{2}", b""));
}

#[test]
fn forward_big_delimiter_only_delimiter() {
    assert_eq!(vec![0..2], regex_ranges("-{2}", b"--"));
}

#[test]
fn forward_big_delimiter_regular_scenarios() {
    assert_eq!(Vec::<Range<usize>>::new(), regex_ranges("-{2}", b"a"));
    assert_eq!(vec![1..3], regex_ranges("-{2}", b"a--b"));
    assert_eq!(vec![1..3, 4..6], regex_ranges("-{2}", b"a--b--c"));
    assert_eq!(vec![1..3, 4..6, 7..9], regex_ranges("-{2}", b"a--b--c--"));
    assert_eq!(vec![0..2, 3..5, 6..8], regex_ranges("-{2}", b"--a--b--c"));
}

fn greedy_ranges(pattern: &[u8], line: &[u8]) -> Vec<Range<usize>> {
    FixedGreedyFinder::new(pattern).find_ranges(line)
}

#[test]
fn fixed_greedy_forward_small_delimiter_empty_line() {
    assert_eq!(Vec::<Range<usize>>::new(), greedy_ranges(b"-", b""));
}

#[test]
fn fixed_greedy_forward_small_delimiter_only_delimiter() {
    assert_eq!(vec![0..1], greedy_ranges(b"-", b"-"));
}

#[test]
fn fixed_greedy_forward_small_delimiter_regular_scenarios() {
    assert_eq!(Vec::<Range<usize>>::new(), greedy_ranges(b"-", b"a"));
    assert_eq!(vec![1..2], greedy_ranges(b"-", b"a-b"));
    assert_eq!(vec![1..2, 3..4], greedy_ranges(b"-", b"a-b-c"));
    assert_eq!(vec![1..2, 3..4, 5..6], greedy_ranges(b"-", b"a-b-c-"));
    assert_eq!(vec![0..1, 2..3, 4..5], greedy_ranges(b"-", b"-a-b-c"));
}

#[test]
fn forward_small_delimiter_only_delimiter_greedy() {
    assert_eq!(vec![0..2], greedy_ranges(b"-", b"--"));
}

#[test]
fn forward_small_delimiter_regular_scenarios_greedy() {
    assert_eq!(Vec::<Range<usize>>::new(), greedy_ranges(b"-", b"a"));
    assert_eq!(vec![1..3], greedy_ranges(b"-", b"a--b"));
    assert_eq!(vec![1..3, 4..6], greedy_ranges(b"-", b"a--b--c"));
    assert_eq!(vec![1..3, 4..6, 7..9], greedy_ranges(b"-", b"a--b--c--"));
    assert_eq!(vec![0..2, 3..5, 6..8], greedy_ranges(b"-", b"--a--b--c"));
}

#[test]
fn forward_big_delimiter_only_delimiter_greedy() {
    assert_eq!(vec![0..4], greedy_ranges(b"--", b"----"));
}

#[test]
fn forward_big_delimiter_regular_scenarios_greedy() {
    assert_eq!(Vec::<Range<usize>>::new(), greedy_ranges(b"--", b"a"));
    assert_eq!(vec![1..5], greedy_ranges(b"--", b"a----b"));
    assert_eq!(vec![1..5, 6..10], greedy_ranges(b"--", b"a----b----c"));
    assert_eq!(vec![1..5, 6..10, 11..15], greedy_ranges(b"--", b"a----b----c----"));
    assert_eq!(vec![0..4, 5..9, 10..14], greedy_ranges(b"--", b"----a----b----c"));
}

fn greedy_rev_ranges(pattern: &[u8], line: &[u8]) -> Vec<Range<usize>> {
    FixedGreedyFinderRev::new(pattern).find_ranges(line)
}

#[test]
fn backward_small_delimiter_empty_line() {
    assert_eq!(Vec::<Range<usize>>::new(), greedy_rev_ranges(b"-", b""));
}

#[test]
fn backward_small_delimiter_only_delimiter() {
    assert_eq!(vec![0..1], greedy_rev_ranges(b"-", b"-"));
}

#[test]
fn backward_small_delimiter_regular_scenarios() {
    assert_eq!(Vec::<Range<usize>>::new(), greedy_rev_ranges(b"-", b"a"));
    assert_eq!(vec![1..2], greedy_rev_ranges(b"-", b"a-b"));
    assert_eq!(vec![3..4, 1..2], greedy_rev_ranges(b"-", b"a-b-c"));
    assert_eq!(vec![5..6, 3..4, 1..2], greedy_rev_ranges(b"-", b"a-b-c-"));
    assert_eq!(vec![4..5, 2..3, 0..1], greedy_rev_ranges(b"-", b"-a-b-c"));
}

#[test]
fn backward_small_delimiter_only_delimiter_greedy() {
    assert_eq!(vec![0..2], greedy_rev_ranges(b"-", b"--"));
}

#[test]
fn backward_small_delimiter_regular_scenarios_greedy() {
    assert_eq!(Vec::<Range<usize>>::new(), greedy_rev_ranges(b"-", b"a"));
    assert_eq!(vec![1..3], greedy_rev_ranges(b"-", b"a--b"));
    assert_eq!(vec![4..6, 1..3], greedy_rev_ranges(b"-", b"a--b--c"));
    assert_eq!(vec![7..9, 4..6, 1..3], greedy_rev_ranges(b"-", b"a--b--c--"));
    assert_eq!(vec![6..8, 3..5, 0..2], greedy_rev_ranges(b"-", b"--a--b--c"));
}

#[test]
fn backward_big_delimiter_only_delimiter_greedy() {
    assert_eq!(vec![0..4], greedy_rev_ranges(b"--", b"----"));
}

#[test]
fn backward_big_delimiter_regular_scenarios_greedy() {
    assert_eq!(Vec::<Range<usize>>::new(), greedy_rev_ranges(b"--", b"a"));
    assert_eq!(vec![1..5], greedy_rev_ranges(b"--", b"a----b"));
    assert_eq!(vec![6..10, 1..5], greedy_rev_ranges(b"--", b"a----b----c"));
    assert_eq!(vec![11..15, 6..10, 1..5], greedy_rev_ranges(b"--", b"a----b----c----"));
    assert_eq!(vec![10..14, 5..9, 0..4], greedy_rev_ranges(b"--", b"----a----b----c"));
}
