use std::ops::Bound;

use fabparse::tag::run_function;
use fabparse::{take, take_not, FabError, Parser};

fn two_letters<'a>(input: &mut &'a str) -> Result<(char, char), FabError> {
    ('a'..='z', 'a'..='z').fab(input)
}

#[test]
fn function_is_a_parser() {
    let mut input = "ab1";
    let res: Result<(char, char), FabError> = two_letters.fab(&mut input);
    assert_eq!(('a', 'b'), res.unwrap());
    assert_eq!("1", input);
}

#[test]
fn function_failure_restores_the_cursor() {
    let moves_and_fails = |input: &mut &str| -> Result<char, FabError> {
        let _: &str = take(1).fab(input)?;
        'x'.fab(input)
    };
    let mut input = "abc";
    let res: Result<char, FabError> = moves_and_fails.fab(&mut input);
    assert!(res.is_err());
    assert_eq!("abc", input);
}

#[test]
fn function_that_leaves_more_than_it_found_fails() {
    let grows = |input: &mut &str| -> Result<char, FabError> {
        *input = "a longer text than before";
        Ok('a')
    };
    let mut input = "abc";
    let res: Result<char, FabError> = grows.fab(&mut input);
    let err = res.unwrap_err();
    assert_eq!(
        vec!["Location [\"\"]^[\"abc\"] from parser Function".to_string()],
        err.trace(input, 10)
    );
    assert_eq!("abc", input);
}

#[test]
fn function_that_stops_inside_a_character_fails() {
    let strays = |input: &mut &str| -> Result<char, FabError> {
        *input = "xy";
        Ok('a')
    };
    let mut input = "a€";
    let res: Result<char, FabError> = strays.fab(&mut input);
    assert!(res.is_err());
    assert_eq!("a€", input);
}

#[test]
fn function_leaves_a_suffix_of_the_input() {
    let strays = |input: &mut &str| -> Result<char, FabError> {
        *input = "xy";
        Ok('a')
    };
    let mut input = "abcd";
    let res: Result<char, FabError> = strays.fab(&mut input);
    assert_eq!('a', res.unwrap());
    assert_eq!("cd", input);
}

#[test]
fn take_not_on_slices() {
    let mut slice = [1, 2, 3].as_slice();
    let res: Result<i32, FabError> = take_not(2).fab(&mut slice);
    assert_eq!(1, res.unwrap());
    assert_eq!([2, 3], slice);
    let res: Result<i32, FabError> = take_not(2).fab(&mut slice);
    assert!(res.is_err());
    assert_eq!([2, 3], slice);
}

#[test]
fn take_not_discards_what_the_parser_read_before_it_failed() {
    let mut input = "abX";
    let res: Result<char, FabError> = take_not(('a', 'b', 'c')).fab(&mut input);
    assert_eq!('a', res.unwrap());
    assert_eq!("bX", input);
}

#[test]
fn range_without_its_end() {
    let mut input = "z";
    let res: Result<char, FabError> = ('a'..'z').fab(&mut input);
    assert!(res.is_err());
    assert_eq!("z", input);
    let mut input = "y";
    let res: Result<char, FabError> = ('a'..'z').fab(&mut input);
    assert_eq!('y', res.unwrap());
    assert_eq!("", input);
    let mut slice = [5, 6].as_slice();
    let res: Result<i32, FabError> = (1..=5).fab(&mut slice);
    assert_eq!(5, res.unwrap());
    let res: Result<i32, FabError> = (1..6).fab(&mut slice);
    assert!(res.is_err());
    assert_eq!([6], slice);
}

#[test]
fn take_of_wide_characters() {
    let mut input = "😀€a";
    let res: Result<&str, FabError> = take(2).fab(&mut input);
    assert_eq!("😀€", res.unwrap());
    assert_eq!("a", input);
    let mut input = "😀€a";
    let res: Result<&str, FabError> = take(0).fab(&mut input);
    assert_eq!("", res.unwrap());
    assert_eq!("😀€a", input);
    let mut slice = [1, 2, 3].as_slice();
    let res: Result<&[i32], FabError> = take(3).fab(&mut slice);
    assert_eq!([1, 2, 3], res.unwrap());
    assert!(slice.is_empty());
}

#[test]
fn map_applies_the_function_to_the_value() {
    let mut input = "7x";
    let digit = |c: char| c.to_digit(10);
    let double = |d: u32| d * 2;
    let plain: Result<u32, FabError> = digit.fab(&mut input);
    let mut again = "7x";
    let mapped: Result<u32, FabError> = digit.fab_map(double).fab(&mut again);
    assert_eq!(double(plain.unwrap()), mapped.unwrap());
    assert_eq!(input, again);
}

#[test]
fn ranges_open_at_one_end() {
    let mut input = "mz";
    let res: Result<char, FabError> = ('m'..).fab(&mut input);
    assert_eq!('m', res.unwrap());
    let res: Result<char, FabError> = (..'z').fab(&mut input);
    assert!(res.is_err());
    assert_eq!("z", input);
    let res: Result<char, FabError> = (..='z').fab(&mut input);
    assert_eq!('z', res.unwrap());
    assert_eq!("", input);
    let mut slice = [4, 5, 6].as_slice();
    let res: Result<i32, FabError> = (5..).fab(&mut slice);
    assert!(res.is_err());
    let res: Result<i32, FabError> = (..5).fab(&mut slice);
    assert_eq!(4, res.unwrap());
    let res: Result<i32, FabError> = (..5).fab(&mut slice);
    assert!(res.is_err());
    let res: Result<i32, FabError> = (..=5).fab(&mut slice);
    assert_eq!(5, res.unwrap());
    assert_eq!([6], slice);
}

#[test]
fn range_of_everything() {
    let mut input = "€!";
    let res: Result<char, FabError> = (..).fab(&mut input);
    assert_eq!('€', res.unwrap());
    assert_eq!("!", input);
    let mut input = "";
    let res: Result<char, FabError> = (..).fab(&mut input);
    assert!(res.is_err());
    assert_eq!("", input);
}

#[test]
fn range_honours_an_exclusive_end() {
    let mut input = "cab";
    let res: Result<char, FabError> = ('a'..'c').fab(&mut input);
    let err = res.unwrap_err();
    assert_eq!(
        vec!["Location [\"\"]^[\"cab\"] from parser Tag".to_string()],
        err.trace(input, 10)
    );
    assert_eq!("cab", input);
}

#[test]
fn pair_of_bounds_is_a_parser() {
    let mut input = "bcd";
    let open = (Bound::Excluded('a'), Bound::Excluded('c'));
    let res: Result<char, FabError> = open.fab(&mut input);
    assert_eq!('b', res.unwrap());
    let res: Result<char, FabError> = open.fab(&mut input);
    assert!(res.is_err());
    assert_eq!("cd", input);
    let closed = (Bound::Included('c'), Bound::Included('c'));
    let res: Result<char, FabError> = closed.fab(&mut input);
    assert_eq!('c', res.unwrap());
    let above = (Bound::Excluded('d'), Bound::Unbounded);
    let res: Result<char, FabError> = above.fab(&mut input);
    assert!(res.is_err());
    let any = (Bound::Unbounded, Bound::Unbounded);
    let res: Result<char, FabError> = any.fab(&mut input);
    assert_eq!('d', res.unwrap());
    assert_eq!("", input);
}

#[test]
fn exhausted_range_holds_nothing() {
    let mut range = 'a'..='b';
    assert_eq!(Some('a'), range.next());
    assert_eq!(Some('b'), range.next());
    assert_eq!(None, range.next());
    let mut input = "ab";
    let res: Result<char, FabError> = range.fab(&mut input);
    assert!(res.is_err());
    assert_eq!("ab", input);
    let mut input = "ba";
    let res: Result<char, FabError> = range.fab(&mut input);
    assert!(res.is_err());
    assert_eq!("ba", input);
}

#[test]
fn run_function_gives_result_and_cursor() {
    let reads_one = |input: &mut &str| -> Result<char, FabError> { 'a'.fab(input) };
    let (given, left) = run_function(&reads_one, "ab");
    assert_eq!('a', given.unwrap());
    assert_eq!("b", left);
    let (given, left) = run_function(&reads_one, "xb");
    assert!(given.is_err());
    assert_eq!("xb", left);
}
