use std::cmp::Ordering;
use std::ops::Range;
use tuc::parse::parse_bounds_list;
use tuc::side::Side;
use tuc::userbounds::{complement_std_range, BoundOrFiller, UserBounds};
use tuc::userboundslist::UserBoundsList;

/// A side written as in the command line: positive from the start,
/// negative from the end.
fn side(k: i64) -> Side {
    if k > 0 {
        Side::with_pos_value((k - 1) as usize)
    } else {
        Side::with_neg_value((-k - 1) as usize)
    }
}

fn ub(l: i64, r: i64) -> UserBounds {
    UserBounds::new(side(l), side(r))
}

fn bound(l: i64, r: i64) -> BoundOrFiller {
    BoundOrFiller::Bound(ub(l, r))
}

fn filler(s: &str) -> BoundOrFiller {
    BoundOrFiller::Filler(s.as_bytes().to_vec())
}

fn ubl(s: &str) -> UserBoundsList {
    UserBoundsList::from_str(s).unwrap()
}

fn side_pos(l: usize) -> Side {
    Side::with_pos_value(l)
}

fn side_neg(l: usize) -> Side {
    Side::with_neg_value(l)
}

#[test]
fn bounds_test_user_bounds_from_str() {
    assert_eq!(UserBounds::from_str("1").ok(), Some(ub(1, 1)));
    assert_eq!(UserBounds::from_str("-1").ok(), Some(ub(-1, -1)));
    assert_eq!(UserBounds::from_str("1:2").ok(), Some(ub(1, 2)));
    assert_eq!(UserBounds::from_str("-2:-1").ok(), Some(ub(-2, -1)));
    assert_eq!(
        UserBounds::from_str("1:").ok(),
        Some(UserBounds::new(side(1), Side::new_inf_right()))
    );
    assert_eq!(
        UserBounds::from_str("-1:").ok(),
        Some(UserBounds::new(side(-1), Side::new_inf_right()))
    );
    assert_eq!(
        UserBounds::from_str(":1").ok(),
        Some(UserBounds::new(Side::new_inf_left(), side(1)))
    );
    assert_eq!(
        UserBounds::from_str(":-1").ok(),
        Some(UserBounds::new(Side::new_inf_left(), side(-1)))
    );
    assert_eq!(
        UserBounds::from_str("2:1").err().map(|x| x.to_string()),
        Some(String::from("Field left value cannot be greater than right value"))
    );
    assert_eq!(
        UserBounds::from_str("-1:-2").err().map(|x| x.to_string()),
        Some(String::from("Field left value cannot be greater than right value"))
    );
}


#[test]
fn bounds_test_parse_bounds_list() {
    assert_eq!(parse_bounds_list("").unwrap(), Vec::new());
    assert_eq!(
        &parse_bounds_list(",").unwrap_err().to_string(),
        "Field format error: empty field"
    );
    assert_eq!(
        &parse_bounds_list("{").unwrap_err().to_string(),
        "Field format error: missing closing parenthesis"
    );
    assert_eq!(
        &parse_bounds_list("}").unwrap_err().to_string(),
        "Field format error: missing opening parenthesis"
    );
    assert_eq!(
        &parse_bounds_list("{1}{").unwrap_err().to_string(),
        "Field format error: missing closing parenthesis"
    );
    assert_eq!(
        &parse_bounds_list("{1}}").unwrap_err().to_string(),
        "Field format error: missing closing parenthesis"
    );
    assert_eq!(
        &parse_bounds_list("{{1}").unwrap_err().to_string(),
        "Field format error: missing opening parenthesis"
    );
    assert_eq!(parse_bounds_list("1").unwrap(), vec![bound(1, 1)]);
    assert_eq!(
        parse_bounds_list("1:").unwrap(),
        vec![BoundOrFiller::Bound(UserBounds::default())]
    );
    assert_eq!(parse_bounds_list("1,2").unwrap(), vec![bound(1, 1), bound(2, 2)]);
    assert_eq!(parse_bounds_list("-1,1").unwrap(), vec![bound(-1, -1), bound(1, 1)]);
    assert_eq!(parse_bounds_list("{1}").unwrap(), vec![bound(1, 1)]);
    assert_eq!(parse_bounds_list("{1:2}").unwrap(), vec![bound(1, 2)]);
    assert_eq!(parse_bounds_list("{1,2}").unwrap(), vec![bound(1, 1), bound(2, 2)]);
    assert_eq!(
        parse_bounds_list("hello {1,2} {{world}}").unwrap(),
        vec![filler("hello "), bound(1, 1), bound(2, 2), filler(" {world}")]
    );
    assert_eq!(
        parse_bounds_list("{1}😎{2}").unwrap(),
        vec![bound(1, 1), filler("😎"), bound(2, 2)]
    );
}

#[test]
fn userboundslist_test_parse_bounds_list() {
    assert_eq!(parse_bounds_list("").unwrap(), Vec::new());
    assert_eq!(
        &parse_bounds_list(",").unwrap_err().to_string(),
        "Field format error: empty field"
    );
    assert_eq!(
        &parse_bounds_list("{").unwrap_err().to_string(),
        "Field format error: missing closing parenthesis"
    );
    assert_eq!(
        &parse_bounds_list("}").unwrap_err().to_string(),
        "Field format error: missing opening parenthesis"
    );
    assert_eq!(
        &parse_bounds_list("{1}{").unwrap_err().to_string(),
        "Field format error: missing closing parenthesis"
    );
    assert_eq!(
        &parse_bounds_list("{1}}").unwrap_err().to_string(),
        "Field format error: missing closing parenthesis"
    );
    assert_eq!(
        &parse_bounds_list("{{1}").unwrap_err().to_string(),
        "Field format error: missing opening parenthesis"
    );
    assert_eq!(parse_bounds_list("1").unwrap(), vec![bound(1, 1)]);
    assert_eq!(
        parse_bounds_list("1:").unwrap(),
        vec![BoundOrFiller::Bound(UserBounds::default())]
    );
    assert_eq!(parse_bounds_list("1,2").unwrap(), vec![bound(1, 1), bound(2, 2)]);
    assert_eq!(parse_bounds_list("-1,1").unwrap(), vec![bound(-1, -1), bound(1, 1)]);
    assert_eq!(parse_bounds_list("{1}").unwrap(), vec![bound(1, 1)]);
    assert_eq!(parse_bounds_list("{1:2}").unwrap(), vec![bound(1, 2)]);
    assert_eq!(parse_bounds_list("{1,2}").unwrap(), vec![bound(1, 1), bound(2, 2)]);
    assert_eq!(
        parse_bounds_list("hello {1,2} {{world}}").unwrap(),
        vec![filler("hello "), bound(1, 1), bound(2, 2), filler(" {world}")]
    );
    assert_eq!(
        parse_bounds_list("{1}😎{2}").unwrap(),
        vec![bound(1, 1), filler("😎"), bound(2, 2)]
    );
    assert_eq!(
        parse_bounds_list("\\n\\t{{}}{1,2}\\n\\t{{}}").unwrap(),
        vec![filler("\n\t{}"), bound(1, 1), bound(2, 2), filler("\n\t{}")]
    );
}

#[test]
fn bounds_test_unpack_bound() {
    assert_eq!(ub(1, 1).unpack(2), vec![ub(1, 1)]);
    assert_eq!(
        UserBounds::new(side(1), Side::new_inf_right()).unpack(2),
        vec![ub(1, 1), ub(2, 2)]
    );
    assert_eq!(
        UserBounds::new(Side::new_inf_left(), side(2)).unpack(2),
        vec![ub(1, 1), ub(2, 2)]
    );
    assert_eq!(
        UserBounds::new(Side::new_inf_left(), Side::new_inf_right()).unpack(2),
        vec![ub(1, 1), ub(2, 2)]
    );
    assert_eq!(
        UserBounds::new(side(-1), Side::new_inf_right()).unpack(2),
        vec![ub(2, 2)]
    );
    assert_eq!(
        UserBounds::new(Side::new_inf_left(), side(-1)).unpack(2),
        vec![ub(1, 1), ub(2, 2)]
    );
    assert_eq!(ub(-2, -1).unpack(2), vec![ub(1, 1), ub(2, 2)]);
}

#[test]
fn bounds_test_user_bounds_is_sortable() {
    assert!(UserBoundsList::new(Vec::new()).is_sortable());
    assert!(ubl("1").is_sortable());
    assert!(ubl("1,2").is_sortable());
    assert!(ubl("3,2").is_sortable());
    assert!(!ubl("-1,1").is_sortable());
    assert!(ubl("-1,-2").is_sortable());
    assert!(!ubl("-1:,:1").is_sortable());
}

#[test]
fn bounds_test_vec_of_bounds_is_forward_only() {
    assert!(ubl("{1}foo{2}").is_forward_only());
    assert!(!ubl("{2}foo{1}").is_forward_only());
}

#[test]
fn test_from_str_some() {
    assert_eq!(Side::from_str_left_bound("42").unwrap(), side_pos(41));
    assert_eq!(Side::from_str_left_bound("-7").unwrap(), side_neg(6));
}

#[test]
fn test_from_str_continue() {
    assert_eq!(Side::from_str_left_bound("").unwrap(), side_pos(0));
    assert_eq!(Side::from_str_right_bound("").unwrap(), side_pos(usize::MAX));
}

#[test]
fn test_from_str_zero() {
    assert!(Side::from_str_left_bound("0").is_err());
}

#[test]
fn test_from_str_invalid() {
    assert!(Side::from_str_left_bound("abc").is_err());
    assert!(Side::from_str_left_bound("4.2").is_err());
}

#[test]
fn test_partial_ord_same_sign() {
    let s = |x: &str| Side::from_str_left_bound(x).unwrap();
    assert_eq!(s("3").partial_cmp(&s("5")), Some(Ordering::Less));
    assert_eq!(s("5").partial_cmp(&s("3")), Some(Ordering::Greater));
    assert_eq!(s("7").partial_cmp(&s("7")), Some(Ordering::Equal));
    assert_eq!(s("-2").partial_cmp(&s("-1")), Some(Ordering::Less));
}

#[test]
fn test_partial_ord_different_sign() {
    let s = |x: &str| Side::from_str_left_bound(x).unwrap();
    assert_eq!(s("3").partial_cmp(&s("-5")), None);
    assert_eq!(s("-5").partial_cmp(&s("3")), None);
}

#[test]
fn test_eq_trait() {
    let s = |x: &str| Side::from_str_left_bound(x).unwrap();
    assert_eq!(s("1"), s("1"));
    assert_eq!(s("-1"), s("-1"));
    assert_ne!(s("1"), s("2"));
    assert_ne!(s("-1"), s("1"));
}

#[test]
fn test_complement_std_range() {
    let empty_vec: Vec<Range<usize>> = vec![];
    assert_eq!(complement_std_range(1, &(0..1)), empty_vec);
    assert_eq!(complement_std_range(5, &(0..5)), empty_vec);
    assert_eq!(complement_std_range(5, &(0..3)), vec![3..5]);
    assert_eq!(complement_std_range(5, &(3..5)), vec![0..3]);
    assert_eq!(complement_std_range(5, &(1..3)), vec![0..1, 3..5]);
    assert_eq!(complement_std_range(2, &(0..2)), empty_vec);
    assert_eq!(complement_std_range(2, &(0..1)), vec![1..2]);
    assert_eq!(complement_std_range(2, &(1..2)), vec![0..1]);
}

#[test]
fn userbounds_test_user_bounds_formatting() {
    assert_eq!(UserBounds::from_str("1:").unwrap().to_string(), "1:-1");
    assert_eq!(UserBounds::from_str(":3").unwrap().to_string(), "1:3");
    assert_eq!(UserBounds::from_str("3:").unwrap().to_string(), "3:-1");
    assert_eq!(UserBounds::from_str("1:2").unwrap().to_string(), "1:2");
    assert_eq!(UserBounds::from_str("-2:-1").unwrap().to_string(), "-2:-1");
}

#[test]
fn userbounds_test_user_bounds_from_str() {
    assert_eq!(UserBounds::from_str("1").ok(), Some(UserBounds::new(side_pos(0), side_pos(0))));
    assert_eq!(UserBounds::from_str("-1").ok(), Some(UserBounds::new(side_neg(0), side_neg(0))));
    assert_eq!(UserBounds::from_str("1:2").ok(), Some(UserBounds::new(side_pos(0), side_pos(1))));
    assert_eq!(UserBounds::from_str("-2:-1").ok(), Some(UserBounds::new(side_neg(1), side_neg(0))));
    assert_eq!(
        UserBounds::from_str("1:").ok(),
        Some(UserBounds::new(side_pos(0), Side::new_inf_right()))
    );
    assert_eq!(
        UserBounds::from_str("-1:").ok(),
        Some(UserBounds::new(side_neg(0), Side::new_inf_right()))
    );
    assert_eq!(
        UserBounds::from_str(":1").ok(),
        Some(UserBounds::new(Side::new_inf_left(), side_pos(0)))
    );
    assert_eq!(
        UserBounds::from_str(":-1").ok(),
        Some(UserBounds::new(Side::new_inf_left(), side_neg(0)))
    );
    assert_eq!(
        UserBounds::from_str("1").ok(),
        Some(UserBounds::with_fallback(side_pos(0), side_pos(0), None))
    );
    let with_fb = |l: Side, r: Side, fb: &str| UserBounds::with_fallback(l, r, Some(fb.as_bytes().to_owned()));
    let got = UserBounds::from_str("1=foo").unwrap();
    assert_eq!(got, with_fb(side_pos(0), side_pos(0), "foo"));
    assert_eq!(got.fallback_oob(), &Some(b"foo".to_vec()));
    let got = UserBounds::from_str("1:2=foo").unwrap();
    assert_eq!(got, with_fb(side_pos(0), side_pos(1), "foo"));
    assert_eq!(got.fallback_oob(), &Some(b"foo".to_vec()));
    let got = UserBounds::from_str("-1=foo").unwrap();
    assert_eq!(got, with_fb(side_neg(0), side_neg(0), "foo"));
    assert_eq!(got.fallback_oob(), &Some(b"foo".to_vec()));
    let got = UserBounds::from_str("1=allow:colon:in:fallback").unwrap();
    assert_eq!(got, with_fb(side_pos(0), side_pos(0), "allow:colon:in:fallback"));
    assert_eq!(got.fallback_oob(), &Some(b"allow:colon:in:fallback".to_vec()));
    let got = UserBounds::from_str("1:2=allow:colon:in:fallback").unwrap();
    assert_eq!(got, with_fb(side_pos(0), side_pos(1), "allow:colon:in:fallback"));
    assert_eq!(got.fallback_oob(), &Some(b"allow:colon:in:fallback".to_vec()));
    assert_eq!(
        UserBounds::from_str("2:1").err().map(|x| x.to_string()),
        Some(String::from("Field left value cannot be greater than right value"))
    );
    assert_eq!(
        UserBounds::from_str("-1:-2").err().map(|x| x.to_string()),
        Some(String::from("Field left value cannot be greater than right value"))
    );
}

#[test]
fn userbounds_test_unpack_bound() {
    let u = |s: &str| UserBounds::from_str(s).unwrap();
    assert_eq!(u("1").unpack(2), vec![u("1")]);
    assert_eq!(u("1:").unpack(2), vec![u("1"), u("2")]);
    assert_eq!(u(":2").unpack(2), vec![u("1"), u("2")]);
    assert_eq!(u("1:-1").unpack(2), vec![u("1"), u("2")]);
    assert_eq!(u("-1:").unpack(2), vec![u("2")]);
    assert_eq!(u(":-1").unpack(2), vec![u("1"), u("2")]);
    assert_eq!(u("-2:-1").unpack(2), vec![u("1"), u("2")]);
}

#[test]
fn test_complement_bound() {
    let u = |s: &str| UserBounds::from_str(s).unwrap();
    assert_eq!(u("1:1").complement(2).unwrap(), vec![u("2:2")]);
    assert_eq!(u("1:").complement(2).unwrap(), Vec::new());
    assert_eq!(u("-3:3").complement(4).unwrap(), vec![u("1:1"), u("4:4")]);
}

#[test]
fn test_user_bounds_cannot_be_empty() {
    assert!(UserBoundsList::from_str("").is_err());
}

#[test]
fn userboundslist_test_user_bounds_is_sortable() {
    assert!(ubl("1").is_sortable());
    assert!(ubl("1,2").is_sortable());
    assert!(ubl("3,2").is_sortable());
    assert!(!ubl("-1,1").is_sortable());
    assert!(ubl("-1,-2").is_sortable());
    assert!(!ubl("-1:,:1").is_sortable());
}

#[test]
fn userboundslist_test_vec_of_bounds_is_sorted() {
    assert!(ubl("1").is_sorted());
    assert!(ubl("1,2").is_sorted());
    assert!(ubl("-2,-1").is_sorted());
    assert!(ubl(":1,2:4,5:").is_sorted());
    assert!(ubl("1,1:2").is_sorted());
    assert!(ubl("1,1,2").is_sorted());
    assert!(!ubl("1,2,1").is_sorted());
}

#[test]
fn userboundslist_test_vec_of_bounds_is_forward_only() {
    assert!(ubl("{1}foo{2}").is_forward_only());
    assert!(!ubl("{2}foo{1}").is_forward_only());
}

#[test]
fn userboundslist_test_vec_of_bounds_can_unpack() {
    assert_eq!(
        ubl("1,:1,2:3,4:").unpack(4).list,
        vec![bound(1, 1), bound(1, 1), bound(2, 2), bound(3, 3), bound(4, 4)]
    );
    assert_eq!(
        ubl("a{1:2}b").unpack(4).list,
        vec![filler("a"), bound(1, 1), bound(2, 2), filler("b")]
    );
}

#[test]
fn test_vec_of_bounds_can_complement() {
    assert_eq!(
        ubl("1:2,2:3,5,-2").complement(6).unwrap().list,
        vec![
            bound(3, 6),
            bound(1, 1),
            bound(4, 6),
            bound(1, 4),
            bound(6, 6),
            bound(1, 4),
            bound(6, 6),
        ]
    );
    assert_eq!(
        ubl("1:").complement(6).err().map(|x| x.to_string()),
        Some("the complement is empty".to_owned())
    );
}

#[test]
fn side_round_trips_through_its_text() {
    for k in [1i64, 2, 10, 123, -1, -5, -42] {
        let t = k.to_string();
        assert_eq!(Side::from_str_left_bound(&t).unwrap(), side(k));
    }
    assert_eq!(
        Side::from_str_left_bound("99999999999999999999999").unwrap_err().to_string(),
        "Not a number `99999999999999999999999`"
    );
    assert_eq!(Side::from_str_left_bound("0").unwrap_err().to_string(), "Zero is not a valid field");
}

#[test]
fn bound_matches_and_ranges() {
    let u = |s: &str| UserBounds::from_str(s).unwrap();
    assert_eq!(u("2:3").matches(1).unwrap(), true);
    assert_eq!(u("2:3").matches(0).unwrap(), false);
    assert_eq!(u("2:3").matches(3).unwrap(), false);
    assert_eq!(
        u("-1").matches(0).unwrap_err().to_string(),
        "Out of bounds: -1"
    );
    assert_eq!(u("1:2").try_into_range(5).unwrap(), 0..2);
    assert_eq!(u("1:").try_into_range(5).unwrap(), 0..5);
    assert_eq!(u("-2:").try_into_range(5).unwrap(), 3..5);
    assert_eq!(u("7").try_into_range(5).unwrap_err().to_string(), "Out of bounds: 7");
}

#[test]
fn list_marks_its_last_bound_and_rightmost_field() {
    let l = ubl("{1}-{3}-{2}x");
    let last: Vec<bool> = l
        .list
        .iter()
        .filter_map(|b| match b {
            BoundOrFiller::Bound(b) => Some(b.is_last()),
            BoundOrFiller::Filler(_) => None,
        })
        .collect();
    assert_eq!(last, vec![false, false, true]);
    assert_eq!(l.last_interesting_field, side(3));
    assert_eq!(ubl("1,-1").last_interesting_field, Side::with_pos_inf());
    assert_eq!(
        UserBoundsList::from_str("  ").err().map(|e| e.to_string()),
        Some("UserBoundsList must contain at least one UserBounds".to_owned())
    );
    assert_eq!(
        UserBoundsList::from_str("{{x}}").err().map(|e| e.to_string()),
        Some("UserBoundsList must contain at least one UserBounds".to_owned())
    );
}

#[test]
fn lists_with_a_negative_side_look_up_to_the_end() {
    assert_eq!(ubl("-1,-2").last_interesting_field, Side::with_pos_inf());
    assert_eq!(ubl("-3:-1").last_interesting_field, Side::with_pos_inf());
    assert_eq!(ubl("1,3").last_interesting_field, Side::with_pos_value(2));
}

#[test]
fn a_complement_without_bounds_is_empty() {
    let err = ubl("a{1:}b").complement(1).err().map(|e| e.to_string());
    assert_eq!(err, Some("the complement is empty".to_owned()));
    let err = ubl("{1:}").complement(3).err().map(|e| e.to_string());
    assert_eq!(err, Some("the complement is empty".to_owned()));
}
