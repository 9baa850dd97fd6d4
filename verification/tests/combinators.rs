use std::error::Error;
use std::fmt;

use fabparse::{opt, take, take_not, FabError, Parser};

#[test]
fn map_success() {
    let mut input = "abc";
    let res: Result<_, FabError> = 'a'.fab_map(|_| 5).fab(&mut input);
    assert_eq!(5, res.unwrap());
    assert_eq!("bc", input);
}

#[test]
fn take_map_success() {
    let mut input = "abc";
    let res: Result<_, FabError> = take(1).fab_map(|_| 5).fab(&mut input);
    assert_eq!(5, res.unwrap());
    assert_eq!("bc", input);
}

#[test]
fn take_map_fail() {
    let mut input = "abc";
    let res: Result<_, FabError> = take(4).fab_map(|_| 5).fab(&mut input);
    assert!(res.is_err());
    assert_eq!("abc", input);
}

#[derive(Debug)]
struct TestError;

impl fmt::Display for TestError {
    fn fmt(&self, f: &mut fmt::Formatter<'_>) -> fmt::Result {
        f.write_str("TestError")
    }
}

impl Error for TestError {
    fn source(&self) -> Option<&(dyn Error + 'static)> {
        None
    }
}

#[test]
fn map_trait_method_success() {
    let mut input = "abc";
    let res: Result<_, FabError> = take(1).fab_map(|_| 5).fab(&mut input);
    assert_eq!(5, res.unwrap());
    assert_eq!("bc", input);
}

#[test]
fn try_map_option_success() {
    let mut input = "abc";
    let res: Result<_, FabError> = take(1).fab_try_map(|_| Some(5)).fab(&mut input);
    assert_eq!(5, res.unwrap());
    assert_eq!("bc", input);
}

#[test]
fn try_map_option_fail() {
    let mut input = "abc";
    let res: Result<_, FabError> = take(1).fab_try_map(|_| None::<i32>).fab(&mut input);
    assert!(res.is_err());
    assert_eq!("abc", input);
}

#[test]
fn try_map_option_parser_fail() {
    let mut input = "abc";
    let res: Result<_, FabError> = take(4).fab_try_map(|_| Some(5)).fab(&mut input);
    assert!(res.is_err());
    assert_eq!("abc", input);
}

#[test]
fn try_map_result_success() {
    let mut input = "abc";
    let res: Result<_, FabError> = take(1)
        .fab_try_map(|_| Ok::<_, TestError>(5))
        .fab(&mut input);
    assert_eq!(5, res.unwrap());
    assert_eq!("bc", input);
}

#[test]
fn try_map_result_fail() {
    let mut input = "abc";
    let res: Result<_, FabError> = take(1)
        .fab_try_map(|_| Err::<i32, _>(TestError))
        .fab(&mut input);
    assert!(res.is_err());
    assert_eq!("abc", input);
}

#[test]
fn try_map_option_result_fail() {
    let mut input = "abc";
    let res: Result<_, FabError> = take(4)
        .fab_try_map(|_| Ok::<_, TestError>(5))
        .fab(&mut input);
    assert!(res.is_err());
    assert_eq!("abc", input);
}

#[test]
fn opt_success() {
    let mut input = "abc";
    let res: Result<_, FabError> = opt("a").fab(&mut input);
    assert_eq!(Some("a"), res.unwrap());
    assert_eq!("bc", input);
    let mut input = "abc";
    let res: Result<_, FabError> = opt("b").fab(&mut input);
    assert_eq!(None, res.unwrap());
    assert_eq!("abc", input);
}

#[test]
fn tuple_success() {
    let mut input = "abc";
    let res: Result<_, FabError> = ("a", "b").fab(&mut input);
    assert_eq!(("a", "b"), res.unwrap());
    assert_eq!("c", input);
}

#[test]
fn tuple_fail() {
    let mut input = "abc";
    let res: Result<_, FabError> = ("b", "a").fab(&mut input);
    assert!(res.is_err());
    assert_eq!("abc", input);
}

#[test]
fn take_not_success() {
    let mut input = "abc";
    let res: Result<_, FabError> = take_not("b").fab(&mut input);
    assert_eq!('a', res.unwrap());
    assert_eq!("bc", input);
}

#[test]
fn take_not_fail() {
    let mut input = "abc";
    let res: Result<_, FabError> = take_not("a").fab(&mut input);
    assert!(res.is_err());
    assert_eq!("abc", input);
}

#[test]
fn take_not_empty() {
    let mut input = "";
    let res: Result<_, FabError> = take_not("a").fab(&mut input);
    assert!(res.is_err());
    assert_eq!("", input);
}

#[test]
fn value_success() {
    let mut input = "abc";
    let res: Result<_, FabError> = "a".fab_value(5).fab(&mut input);
    assert_eq!(5, res.unwrap());
    assert_eq!("bc", input);
}

#[test]
fn value_fail() {
    let mut input = "abc";
    let res: Result<_, FabError> = "b".fab_value(5).fab(&mut input);
    assert!(res.is_err());
    assert_eq!("abc", input);
}
