use fabparse::util::{float_str, is_ascii_digit, num_signed_str, num_unsigned_str};
use fabparse::{FabError, NoContextFabError, Parser, ParserError};

#[test]
fn unsigned_number_reads_leading_digits() {
    let mut input = "123abc";
    let res: Result<&str, FabError> = num_unsigned_str(&mut input);
    assert_eq!("123", res.unwrap());
    assert_eq!("abc", input);
}

#[test]
fn unsigned_number_needs_a_digit() {
    let mut input = "abc";
    let res: Result<&str, FabError> = num_unsigned_str(&mut input);
    let err = res.unwrap_err();
    assert_eq!(Some(usize::MAX - 3), err.get_loc());
    assert_eq!("abc", input);
}

#[test]
fn unsigned_number_does_not_read_a_sign() {
    let mut input = "-1";
    let res: Result<&str, NoContextFabError> = num_unsigned_str(&mut input);
    assert!(res.is_err());
    assert_eq!("-1", input);
}

#[test]
fn signed_number_reads_minus_and_digits() {
    let mut input = "-42x";
    let res: Result<&str, FabError> = num_signed_str(&mut input);
    assert_eq!("-42", res.unwrap());
    assert_eq!("x", input);
}

#[test]
fn signed_number_without_sign() {
    let mut input = "7";
    let res: Result<&str, FabError> = num_signed_str(&mut input);
    assert_eq!("7", res.unwrap());
    assert_eq!("", input);
}

#[test]
fn signed_number_with_sign_alone_fails_and_stays() {
    let mut input = "-x";
    let res: Result<&str, FabError> = num_signed_str(&mut input);
    let err = res.unwrap_err();
    assert_eq!(Some(usize::MAX - 1), err.get_loc());
    assert_eq!("-x", input);
}

#[test]
fn float_reads_sign_whole_and_fraction() {
    let mut input = "-1.50e";
    let res: Result<&str, FabError> = float_str(&mut input);
    assert_eq!("-1.50", res.unwrap());
    assert_eq!("e", input);
}

#[test]
fn float_leaves_a_point_without_digits() {
    let mut input = "3.x";
    let res: Result<&str, FabError> = float_str(&mut input);
    assert_eq!("3", res.unwrap());
    assert_eq!(".x", input);
}

#[test]
fn float_needs_a_whole_part() {
    let mut input = ".5";
    let res: Result<&str, FabError> = float_str(&mut input);
    assert!(res.is_err());
    assert_eq!(".5", input);
}

#[test]
fn float_is_a_parser() {
    let mut input = "1.5,2";
    let res: Result<(&str, char, &str), FabError> =
        (float_str::<FabError>, ',', num_unsigned_str::<FabError>).fab(&mut input);
    assert_eq!(("1.5", ',', "2"), res.unwrap());
    assert_eq!("", input);
}

#[test]
fn digit_predicate() {
    assert!(is_ascii_digit('0'));
    assert!(is_ascii_digit('9'));
    assert!(!is_ascii_digit('/'));
    assert!(!is_ascii_digit(':'));
    assert!(!is_ascii_digit('a'));
}
