use kls::utils::{chars_to_string, str_to_chars, u64_to_string, i64_to_string, parse_i64,
    bytes_le, rfind_char, contains_char, StrUtil};
use kls::params::Params;
use kls::error::KlsError;

#[test]
fn chars_round_trip() {
    let v = str_to_chars("héllo w");
    assert_eq!(v.len(), 7);
    assert_eq!(chars_to_string(&v), "héllo w");
}

#[test]
fn substr_clamps() {
    let s = String::from("hello");
    assert_eq!(s.substr(1, 3), "ell");
    assert_eq!(s.substr(4, 10), "o");
    assert_eq!(s.substr(9, 2), "");
    assert_eq!(s.substr_after(2), "llo");
    assert_eq!(s.substr_after(0), "hello");
}

#[test]
fn padding() {
    let s = String::from("ab");
    assert_eq!(s.pad_start(5, ' '), "   ab");
    assert_eq!(s.pad_end(5, '.'), "ab...");
    assert_eq!(s.pad_start(1, ' '), "ab");
    assert_eq!(s.pad_end(2, ' '), "ab");
    assert_eq!(String::from("7").pad_start(2, '0'), "07");
}

#[test]
fn repeat_and_pad_str() {
    let s = String::from("ab");
    assert_eq!(s.repeat_to(5), "ababa");
    assert_eq!(s.repeat_to(0), "");
    assert_eq!(String::from("").repeat_to(4), "");
    assert_eq!(String::from("x").pad_start_str(4, "ab"), "abax");
    assert_eq!(String::from("x").pad_end_str(4, "ab"), "xaba");
}

#[test]
fn numbers_to_text() {
    assert_eq!(u64_to_string(0), "0");
    assert_eq!(u64_to_string(7), "7");
    assert_eq!(u64_to_string(1024), "1024");
    assert_eq!(u64_to_string(u64::MAX), "18446744073709551615");
    assert_eq!(i64_to_string(0), "0");
    assert_eq!(i64_to_string(-42), "-42");
    assert_eq!(i64_to_string(i64::MIN), "-9223372036854775808");
    assert_eq!(i64_to_string(i64::MAX), "9223372036854775807");
}

#[test]
fn parse_integers() {
    assert_eq!(parse_i64("123"), Some(123));
    assert_eq!(parse_i64("+5"), Some(5));
    assert_eq!(parse_i64("-12"), Some(-12));
    assert_eq!(parse_i64("042"), Some(42));
    assert_eq!(parse_i64(""), None);
    assert_eq!(parse_i64("-"), None);
    assert_eq!(parse_i64("12a"), None);
    assert_eq!(parse_i64(" 12"), None);
    assert_eq!(parse_i64("9223372036854775807"), Some(i64::MAX));
    assert_eq!(parse_i64("9223372036854775808"), None);
    assert_eq!(parse_i64("-9223372036854775808"), Some(i64::MIN));
    assert_eq!(parse_i64("-9223372036854775809"), None);
}

#[test]
fn byte_order() {
    assert!(bytes_le(&vec![], &vec![1u8]));
    assert!(bytes_le(&vec![1u8, 2], &vec![1u8, 2]));
    assert!(bytes_le(&vec![1u8, 2], &vec![1u8, 3]));
    assert!(!bytes_le(&vec![2u8], &vec![1u8, 9]));
    assert!(bytes_le(&vec![1u8], &vec![1u8, 0]));
    assert!(!bytes_le(&vec![1u8, 0], &vec![1u8]));
}

#[test]
fn finding_characters() {
    let v = str_to_chars("a.b.c");
    assert_eq!(rfind_char(&v, '.'), Some(3));
    assert_eq!(rfind_char(&v, 'z'), None);
    assert!(contains_char(&v, 'c'));
    assert!(!contains_char(&v, 'x'));
}

#[test]
fn params_short_flags() {
    let p = Params::new(vec![String::from("-la")]).unwrap();
    assert!(p.opts.long_format);
    assert!(p.opts.all_files);
    assert_eq!(p.paths, vec![String::from("./")]);
}

#[test]
fn params_long_flags_and_paths() {
    let p = Params::new(vec![
        String::from("--long-format"),
        String::from("/tmp"),
        String::from("---all"),
        String::from("src"),
    ])
    .unwrap();
    assert!(p.opts.long_format);
    assert!(p.opts.all_files);
    assert_eq!(p.paths, vec![String::from("/tmp"), String::from("src")]);
}

#[test]
fn params_separate_short_flags() {
    let p = Params::new(vec![String::from("-l")]).unwrap();
    assert!(p.opts.long_format);
    assert!(!p.opts.all_files);
    let p = Params::new(vec![String::from("-a")]).unwrap();
    assert!(!p.opts.long_format);
    assert!(p.opts.all_files);
}

#[test]
fn params_unknown_argument() {
    match Params::new(vec![String::from("--bogus")]) {
        Ok(_) => panic!("unknown argument accepted"),
        Err(KlsError::S(m)) => assert_eq!(m, "Unknown argument: --bogus"),
        Err(KlsError::E(_, _)) => panic!("wrong error variant"),
    }
}

#[test]
fn error_messages() {
    assert_eq!(KlsError::S(String::from("oops")).message(), "KlsError: oops");
    assert_eq!(
        KlsError::E(String::from("oops"), String::from("io")).message(),
        "KlsError(io): oops"
    );
}
