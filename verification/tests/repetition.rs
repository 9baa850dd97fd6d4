use std::collections::HashMap;

use fabparse::{FabError, Parser};

#[test]
fn repeat_success() {
    let mut input = "aac";
    let res: Result<_, FabError> = 'a'.fab_repeat().fab(&mut input);
    assert_eq!(vec!['a', 'a'], res.unwrap());
    assert_eq!("c", input);
}

#[test]
fn repeat_min_success() {
    let mut input = "aac";
    let res: Result<_, FabError> = 'a'.fab_repeat().min(2).fab(&mut input);
    assert_eq!(vec!['a', 'a'], res.unwrap());
    assert_eq!("c", input);
}

#[test]
fn repeat_min_fail() {
    let mut input = "aac";
    let res: Result<_, FabError> = 'a'.fab_repeat().min(3).fab(&mut input);
    assert!(res.is_err());
    assert_eq!("aac", input);
}

#[test]
fn repeat_max_success() {
    let mut input = "aac";
    let res: Result<_, FabError> = 'a'.fab_repeat().max(3).fab(&mut input);
    assert_eq!(vec!['a', 'a'], res.unwrap());
    assert_eq!("c", input);
}

#[test]
fn repeat_max() {
    let mut input = "aac";
    let res: Result<_, FabError> = 'a'.fab_repeat().max(2).fab(&mut input);
    assert_eq!(vec!['a'], res.unwrap());
    assert_eq!("ac", input);
}

fn char_num<'a>(input: &mut &'a str) -> Result<(char, u32), FabError> {
    ('a'..='z', ('0'..='9').fab_try_map(|c: char| c.to_digit(10))).fab(input)
}

fn reducer(map: &mut HashMap<char, u32>, val: (char, u32)) {
    map.insert(val.0, val.1);
}

#[test]
fn repeat_reduce_hashmap_success() {
    let mut input = "a1b2c3";
    let res: Result<_, FabError> = char_num
        .fab_repeat()
        .reduce(HashMap::new(), reducer)
        .fab(&mut input);
    let expected_res: HashMap<char, u32> = [('a', 1), ('b', 2), ('c', 3)].into_iter().collect();
    assert_eq!(expected_res, res.unwrap());
    assert_eq!("", input);
}

#[test]
fn repeat_reduce_hashmap_lambdas() {
    let mut input = "a1b2c3";
    let res: Result<_, FabError> = ('a'..='z', ('0'..='9').fab_try_map(|c: char| c.to_digit(10)))
        .fab_repeat()
        .reduce(
            HashMap::new(),
            |state: &mut HashMap<char, u32>, val: (char, u32)| {
                state.insert(val.0, val.1);
            },
        )
        .fab(&mut input);
    let expected_res: HashMap<char, u32> = [('a', 1), ('b', 2), ('c', 3)].into_iter().collect();
    assert_eq!(expected_res, res.unwrap());
    assert_eq!("", input);
}

#[test]
fn repeat_reduce_fn_err_lambdas() {
    let mut input = "a1b2c3";
    let res: Result<_, FabError> = ('a'..='z', ('0'..='9').fab_try_map(|c: char| c.to_digit(10)))
        .fab_repeat()
        .reduce(
            HashMap::new(),
            |_state: &mut HashMap<char, u32>, _val: (char, u32)| None,
        )
        .fab(&mut input);
    assert!(res.is_err());
    assert_eq!("a1b2c3", input);
}

/**
 * This is a failure case where the stack trace is printed.
 */
#[test]
fn test_error_trace() {
    let mut input = "a1b2c3";
    let res: Result<_, FabError> = ('a'..='z', ('0'..='9').fab_try_map(|c: char| c.to_digit(10)))
        .fab_repeat()
        .reduce(
            HashMap::new(),
            |state: &mut HashMap<char, u32>, val: (char, u32)| {
                if val.0 != 'c' {
                    state.insert(val.0, val.1);
                    true
                } else {
                    false
                }
            },
        )
        .fab(&mut input);
    assert!(res.is_err());
    assert_eq!("a1b2c3", input);
    let err = res.unwrap_err();
    assert!(err.comes_from(input));
    for line in err.trace(input, 10) {
        println!("{}", line);
    }
}

#[test]
fn repeat_as_input_slice() {
    let mut input = "aac";
    let res: Result<_, FabError> = 'a'.fab_repeat().as_input_slice().fab(&mut input);
    assert_eq!("aa", res.unwrap());
    assert_eq!("c", input);
}
