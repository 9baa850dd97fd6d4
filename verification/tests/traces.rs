use std::collections::HashMap;
use std::str::FromStr;

use fabparse::error::{
    get_from_end, get_from_start, get_surrounding_context, holds_place, kind_name, loc, Cause,
    LocatedError,
};
use fabparse::{
    opt, take, FabError, NoContextFabError, Parser, ParserError, ParserType, TryReducerError,
};

#[test]
fn trace_of_refused_repetition() {
    let mut input = "a1b2c3";
    let res: Result<HashMap<char, u32>, FabError> =
        ('a'..='z', ('0'..='9').fab_try_map(|c: char| c.to_digit(10)))
            .fab_repeat()
            .reduce(
                HashMap::new(),
                |state: &mut HashMap<char, u32>, val: (char, u32)| {
                    if val.0 != 'c' {
                        state.insert(val.0, val.1);
                        true
                    } else {
                        false
                    }
                },
            )
            .fab(&mut input);
    assert_eq!("a1b2c3", input);
    let err = res.unwrap_err();
    assert_eq!(Some(loc(input) + 4), err.get_loc());
    let lines = err.trace(input, 10);
    assert_eq!(
        vec![
            "Location [\"a1b2\"]^[\"c3\"] from parser RepeatIter".to_string(),
            "Location [\"\"]^[\"a1b2c3\"] from parser Repeat".to_string(),
            "From cause [ReducerFailed]".to_string(),
        ],
        lines
    );
}

#[test]
fn trace_window_counts_characters() {
    let mut input = "äöü€😀x";
    let res: Result<(char, char, char, char, char, char), FabError> =
        ('ä', 'ö', 'ü', '€', '😀', 'y').fab(&mut input);
    let err = res.unwrap_err();
    assert_eq!(Some(loc(input) + 13), err.get_loc());
    assert_eq!(
        vec!["Location [\"€😀\"]^[\"x\"] from parser Tag".to_string()],
        err.trace(input, 2)
    );
    assert_eq!(
        vec!["Location [\"\"]^[\"\"] from parser Tag".to_string()],
        err.trace(input, 0)
    );
}

#[test]
fn trace_of_slice_input() {
    let mut slice = [1, 2, 3, 4].as_slice();
    let res: Result<(i32, i32, i32), FabError> = (1, 2, 4).fab(&mut slice);
    let err = res.unwrap_err();
    assert_eq!(
        vec!["Location [[1, 2]]^[[3, 4]] from parser Tag".to_string()],
        err.trace(slice, 10)
    );
}

#[test]
fn trace_with_cause_of_a_function() {
    let mut input = "x";
    let res: Result<i32, FabError> = (|c: char| i32::from_str(&c.to_string())).fab(&mut input);
    let err = res.unwrap_err();
    let lines = err.trace(input, 10);
    assert_eq!(2, lines.len());
    assert_eq!("Location [\"\"]^[\"x\"] from parser Tag", lines[0]);
    assert_eq!("From cause [invalid digit found in string]", lines[1]);
}

#[test]
fn try_map_marks_a_failing_parser() {
    let mut input = "abc";
    let res: Result<i32, FabError> = take(4).fab_try_map(|_| Some(5)).fab(&mut input);
    let err = res.unwrap_err();
    assert_eq!(
        vec![
            "Location [\"\"]^[\"abc\"] from parser Tag".to_string(),
            "Location [\"\"]^[\"abc\"] from parser Map".to_string(),
        ],
        err.trace(input, 10)
    );
}

#[test]
fn try_map_reports_its_own_kind() {
    let mut input = "abc";
    let res: Result<i32, FabError> = ('a', take(1).fab_try_map(|_| None::<i32>))
        .fab_map(|pair: (char, i32)| pair.1)
        .fab(&mut input);
    let err = res.unwrap_err();
    assert_eq!(
        vec!["Location [\"a\"]^[\"bc\"] from parser TryMap".to_string()],
        err.trace(input, 10)
    );
    assert_eq!("abc", input);
}

#[test]
fn map_and_value_pass_the_error_through() {
    let mut input = "abc";
    let plain: Result<char, FabError> = 'x'.fab(&mut input);
    let mapped: Result<i32, FabError> = 'x'.fab_map(|_| 5).fab(&mut input);
    let valued: Result<i32, FabError> = 'x'.fab_value(5).fab(&mut input);
    let expected = plain.unwrap_err().trace(input, 10);
    assert_eq!(1, expected.len());
    assert_eq!(expected, mapped.unwrap_err().trace(input, 10));
    assert_eq!(expected, valued.unwrap_err().trace(input, 10));
}

#[test]
fn error_of_another_input_is_recognised() {
    let mut input = "abc";
    let res: Result<char, FabError> = 'x'.fab(&mut input);
    let err = res.unwrap_err();
    assert!(err.comes_from(input));
    assert!(err.comes_from("xabc"));
    assert!(!err.comes_from("ab"));
    assert!(!err.comes_from(""));
    assert!(!err.comes_from("€a"));
}

#[test]
fn places_of_an_input() {
    let input = "aä€";
    let start = loc(input);
    assert_eq!(usize::MAX - 6, start);
    assert!(holds_place(input, start));
    assert!(holds_place(input, start + 1));
    assert!(!holds_place(input, start + 2));
    assert!(holds_place(input, start + 3));
    assert!(!holds_place(input, start + 4));
    assert!(!holds_place(input, start + 5));
    assert!(holds_place(input, start + 6));
    assert!(!holds_place(input, start - 1));
}

#[test]
fn windows_are_cut_at_the_ends() {
    let input = "aä€😀";
    assert_eq!("aä", get_from_start(input, 2));
    assert_eq!("", get_from_start(input, 0));
    assert_eq!(input, get_from_start(input, 9));
    assert_eq!("€😀", get_from_end(input, 2));
    assert_eq!("", get_from_end(input, 0));
    assert_eq!(input, get_from_end(input, 9));
    let slice = [1, 2, 3].as_slice();
    assert_eq!([1, 2], get_from_start(slice, 2));
    assert_eq!([3], get_from_end(slice, 1));
    let (before, after) = get_surrounding_context(input, loc(input) + 3, 1);
    assert_eq!("ä", before);
    assert_eq!("€", after);
}

#[test]
fn error_without_context_keeps_nothing() {
    let mut input = "abc";
    let res: Result<char, NoContextFabError> = 'x'.fab(&mut input);
    let mut err = res.unwrap_err();
    assert_eq!(None, err.get_loc());
    err.add_context(input, ParserType::Repeat);
    assert_eq!(None, err.get_loc());
    let made: NoContextFabError =
        NoContextFabError::from_external_error(input, ParserType::Tag, TryReducerError);
    assert_eq!(None, made.get_loc());
}

#[test]
fn error_with_context_keeps_the_innermost_location() {
    let input = "abc";
    let rest = &input[1..];
    let mut err = FabError::from_parser_error(rest, ParserType::Tag);
    assert_eq!(Some(loc(input) + 1), err.get_loc());
    err.add_context(input, ParserType::Sequence);
    assert_eq!(Some(loc(input) + 1), err.get_loc());
    assert_eq!(
        vec![
            "Location [\"a\"]^[\"bc\"] from parser Tag".to_string(),
            "Location [\"\"]^[\"abc\"] from parser Sequence".to_string(),
        ],
        err.trace(input, 10)
    );
    let caused = FabError::from_external_error(input, ParserType::Function, TryReducerError);
    assert_eq!(
        vec![
            "Location [\"\"]^[\"abc\"] from parser Function".to_string(),
            "From cause [ReducerFailed]".to_string(),
        ],
        caused.trace(input, 10)
    );
}

#[test]
fn names_of_the_kinds() {
    assert_eq!("Tag", kind_name(ParserType::Tag));
    assert_eq!("Alt", kind_name(ParserType::Alt));
    assert_eq!("Try", kind_name(ParserType::Try));
    assert_eq!("Map", kind_name(ParserType::Mapped));
    assert_eq!("TryMap", kind_name(ParserType::TryMap));
    assert_eq!("Function", kind_name(ParserType::Function));
    assert_eq!("TakeNot", kind_name(ParserType::TakeNot));
    assert_eq!("Repeat", kind_name(ParserType::Repeat));
    assert_eq!("RepeatIter", kind_name(ParserType::RepeatIter));
    assert_eq!("Sequence", kind_name(ParserType::Sequence));
    assert_eq!("Permutation", kind_name(ParserType::Permutation));
}

#[test]
fn descriptions_of_causes() {
    assert_eq!("ReducerFailed", TryReducerError.describe());
    assert_eq!("invalid digit found in string", i32::from_str("a").unwrap_err().describe());
}

#[test]
fn opt_never_fails() {
    let inputs = ["", "a", "b", "ab", "😀"];
    for text in inputs {
        let mut input = text;
        let res: Result<Option<char>, FabError> = opt('a').fab(&mut input);
        assert!(res.is_ok());
    }
}

#[test]
fn contexts_of_each_frame() {
    let input = "abcdef";
    let mut err = FabError::from_parser_error(&input[4..], ParserType::Tag);
    err.add_context(&input[1..], ParserType::Sequence);
    err.add_context(input, ParserType::Repeat);
    let shown = err.contexts(input, 2);
    assert_eq!(
        vec![
            ("cd", "ef", ParserType::Tag),
            ("a", "bc", ParserType::Sequence),
            ("", "ab", ParserType::Repeat),
        ],
        shown
    );
    assert_eq!(
        vec![
            "Location [\"cd\"]^[\"ef\"] from parser Tag".to_string(),
            "Location [\"a\"]^[\"bc\"] from parser Sequence".to_string(),
            "Location [\"\"]^[\"ab\"] from parser Repeat".to_string(),
        ],
        err.trace(input, 2)
    );
}

#[test]
fn frames_and_cause_of_an_error() {
    let input = "abc";
    let mut err = FabError::from_external_error(&input[1..], ParserType::Tag, TryReducerError);
    err.add_context(input, ParserType::Repeat);
    let frames: Vec<LocatedError> = err.stack();
    assert_eq!(2, frames.len());
    assert_eq!(loc(input) + 1, frames[0].location);
    assert_eq!(ParserType::Tag, frames[0].parser_type);
    assert_eq!(loc(input), frames[1].location);
    assert_eq!(ParserType::Repeat, frames[1].parser_type);
    assert_eq!(Some("ReducerFailed"), err.cause());
    let plain = FabError::from_parser_error(input, ParserType::Tag);
    assert_eq!(None, plain.cause());
    assert_eq!(1, plain.stack().len());
}
