use tuc::options::{Args, Opt, OptError};
use tuc::userboundslist::UserBoundsList;

fn ubl(s: &str) -> UserBoundsList {
    UserBoundsList::from_str(s).unwrap()
}

fn no_args() -> Args {
    Args {
        cut_by_fields: None,
        cut_by_characters: None,
        cut_by_bytes: None,
        cut_by_lines: None,
        delimiter: None,
        replace_delimiter: None,
        trim: None,
        fixed_memory_kb: None,
        fallback_oob: None,
        path: None,
        regex: None,
        complement: false,
        compress_delimiter: false,
        greedy_delimiter: false,
        join_yes: false,
        join_no: false,
        json: false,
        mmap_no: false,
        only_delimited: false,
        zero_terminated: false,
    }
}

#[test]
fn it_cannot_join_fields_with_regex_without_replace_delimiter() {
    let mut args = no_args();
    args.regex = Some("[,.]".to_string());
    args.cut_by_fields = Some(ubl("1,3"));
    args.join_yes = true;
    assert_eq!(Opt::try_from(args).err(), Some(OptError::RegexJoinNoReplace));
}

#[test]
fn it_cannot_compress_fields_with_regex_without_replace_delimiter() {
    let mut args = no_args();
    args.regex = Some("[,.]".to_string());
    args.cut_by_fields = Some(ubl("1,3"));
    args.compress_delimiter = true;
    assert_eq!(Opt::try_from(args).err(), Some(OptError::RegexCompressNoReplace));
}

#[test]
fn it_cannot_contain_both_join_and_no_join() {
    let mut args = no_args();
    args.cut_by_fields = Some(ubl("1,3"));
    args.join_yes = true;
    args.join_no = true;
    assert_eq!(Opt::try_from(args).err(), Some(OptError::JoinNoJoin));
}

#[test]
fn it_can_compress_delimiter_only_with_fields_and_lines() {
    let mut args = no_args();
    args.cut_by_fields = Some(ubl("1,3"));
    args.compress_delimiter = true;
    assert!(Opt::try_from(args).is_ok());

    let mut args = no_args();
    args.cut_by_lines = Some(ubl("1,3"));
    args.compress_delimiter = true;
    assert!(Opt::try_from(args).is_ok());

    let mut args = no_args();
    args.cut_by_characters = Some(ubl("1,3"));
    args.compress_delimiter = true;
    assert_eq!(Opt::try_from(args).err(), Some(OptError::NothingToCompress));

    let mut args = no_args();
    args.cut_by_bytes = Some(ubl("1,3"));
    args.compress_delimiter = true;
    assert_eq!(Opt::try_from(args).err(), Some(OptError::NothingToCompress));
}

#[test]
fn options_default_to_every_tab_separated_field() {
    let opt = Opt::try_from(no_args()).unwrap();
    assert_eq!(opt.delimiter, b"\t".to_vec());
    assert_eq!(opt.bounds.list.len(), 1);
}

#[test]
fn lines_imply_join_and_cut_on_newlines() {
    let mut args = no_args();
    args.cut_by_lines = Some(ubl("1"));
    let opt = Opt::try_from(args).unwrap();
    assert!(opt.join);
    assert_eq!(opt.delimiter, b"\n".to_vec());
}

#[test]
fn fixed_memory_is_given_in_kilobytes() {
    let mut args = no_args();
    args.fixed_memory_kb = Some(2);
    let opt = Opt::try_from(args).unwrap();
    assert_eq!(opt.fixed_memory, Some(2048));

    let mut args = no_args();
    args.fixed_memory_kb = Some(0);
    assert_eq!(Opt::try_from(args).err(), Some(OptError::FixedMemoryZero));
}

#[test]
fn opt_errors_read_as_messages() {
    assert_eq!(
        OptError::NothingToCompress.to_string(),
        "tuc: runtime error. Delimiters can be compressed only with --fields and --lines"
    );
}
