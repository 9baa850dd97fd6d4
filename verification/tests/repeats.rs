use std::ops::Bound;

use fabparse::error::loc;
use fabparse::repeat::{
    fold_once, limit_from, normalize, InputSliceReducer, Limit, Reducer, RepeatBounds, TryReducer,
    VecReducer,
};
use fabparse::{opt, take, FabError, NoContextFabError, Parser, ParserError, Repeat};

#[test]
fn repeat_of_nothing_is_empty() {
    let mut input = "bbbb";
    let res: Result<Vec<char>, FabError> = 'a'.fab_repeat().fab(&mut input);
    assert_eq!(Vec::<char>::new(), res.unwrap());
    assert_eq!("bbbb", input);
}

#[test]
fn repeat_min_one_fails_on_nothing() {
    let mut input = "bbbb";
    let res: Result<Vec<char>, FabError> = 'a'.fab_repeat().min(1).fab(&mut input);
    let err = res.unwrap_err();
    assert_eq!(
        vec!["Location [\"\"]^[\"bbbb\"] from parser Repeat".to_string()],
        err.trace(input, 10)
    );
    assert_eq!("bbbb", input);
}

#[test]
fn repeat_with_empty_range_fails_at_once() {
    let mut input = "aaa";
    let res: Result<Vec<char>, FabError> = 'a'.fab_repeat().min(2).max(2).fab(&mut input);
    let err = res.unwrap_err();
    assert_eq!(
        vec!["Location [\"\"]^[\"aaa\"] from parser Repeat".to_string()],
        err.trace(input, 10)
    );
    assert_eq!("aaa", input);
    let res: Result<Vec<char>, FabError> = 'a'.fab_repeat().max(0).fab(&mut input);
    assert!(res.is_err());
    assert_eq!("aaa", input);
}

#[test]
fn repeat_max_one_reads_nothing() {
    let mut input = "aaa";
    let res: Result<Vec<char>, FabError> = 'a'.fab_repeat().max(1).fab(&mut input);
    assert_eq!(Vec::<char>::new(), res.unwrap());
    assert_eq!("aaa", input);
}

#[test]
fn repeat_stops_below_the_upper_bound() {
    let mut input = "aaaaa";
    let res: Result<Vec<char>, FabError> = 'a'.fab_repeat().min(1).max(4).fab(&mut input);
    assert_eq!(vec!['a', 'a', 'a'], res.unwrap());
    assert_eq!("aa", input);
}

#[test]
fn repeat_fails_where_the_parser_reads_nothing() {
    let mut input = "bbb";
    let res: Result<Vec<Option<char>>, FabError> = opt('a').fab_repeat().fab(&mut input);
    let err = res.unwrap_err();
    assert_eq!(
        vec![
            "Location [\"\"]^[\"bbb\"] from parser RepeatIter".to_string(),
            "Location [\"\"]^[\"bbb\"] from parser Repeat".to_string(),
        ],
        err.trace(input, 10)
    );
    assert_eq!("bbb", input);
}

#[test]
fn repeat_fails_where_the_parser_stalls_later() {
    let mut input = "aab";
    let res: Result<Vec<Option<char>>, FabError> = opt('a').fab_repeat().fab(&mut input);
    let err = res.unwrap_err();
    assert_eq!(Some(loc(input) + 2), err.get_loc());
    assert_eq!(
        vec![
            "Location [\"aa\"]^[\"b\"] from parser RepeatIter".to_string(),
            "Location [\"\"]^[\"aab\"] from parser Repeat".to_string(),
        ],
        err.trace(input, 10)
    );
    assert_eq!("aab", input);
}

#[test]
fn repeat_with_result_reducer_keeps_the_cause() {
    let mut input = "123456";
    let res: Result<u32, FabError> = (|c: char| c.to_digit(10))
        .fab_repeat()
        .reduce(0u32, |sum: &mut u32, digit: u32| {
            if *sum + digit > 9 {
                "x".parse::<u32>().map(|_| ())
            } else {
                *sum += digit;
                Ok(())
            }
        })
        .fab(&mut input);
    let err = res.unwrap_err();
    assert_eq!(
        vec![
            "Location [\"123\"]^[\"456\"] from parser RepeatIter".to_string(),
            "Location [\"\"]^[\"123\"] from parser Repeat".to_string(),
            "From cause [invalid digit found in string]".to_string(),
        ],
        err.trace(input, 3)
    );
    assert_eq!("123456", input);
}

#[test]
fn repeat_with_result_reducer_succeeds() {
    let mut input = "123x";
    let res: Result<u32, FabError> = (|c: char| c.to_digit(10))
        .fab_repeat()
        .reduce(0u32, |sum: &mut u32, digit: u32| {
            *sum += digit;
            Ok::<(), std::num::ParseIntError>(())
        })
        .fab(&mut input);
    assert_eq!(6, res.unwrap());
    assert_eq!("x", input);
}

#[test]
fn repeat_with_option_reducer() {
    let mut input = "1239";
    let res: Result<u32, NoContextFabError> = (|c: char| c.to_digit(10))
        .fab_repeat()
        .reduce(0u32, |sum: &mut u32, digit: u32| {
            *sum = sum.checked_add(digit)?;
            Some(())
        })
        .fab(&mut input);
    assert_eq!(15, res.unwrap());
    assert_eq!("", input);
}

#[test]
fn repeat_on_slices_returns_the_slice_read() {
    let mut slice = [1, 1, 1, 2].as_slice();
    let res: Result<&[i32], FabError> = 1.fab_repeat().as_input_slice().fab(&mut slice);
    assert_eq!([1, 1, 1], res.unwrap());
    assert_eq!([2], slice);
}

#[test]
fn repeat_as_input_slice_of_wide_characters() {
    let mut input = "😀😀€";
    let res: Result<&str, FabError> = take(1).fab_repeat().max(3).as_input_slice().fab(&mut input);
    assert_eq!("😀😀", res.unwrap());
    assert_eq!("€", input);
}

#[test]
fn bound_reads_both_ends_of_a_range() {
    let mut input = "aaaa";
    let res: Result<Vec<char>, FabError> =
        'a'.fab_repeat().bound(1..3).unwrap().fab(&mut input);
    assert_eq!(vec!['a', 'a'], res.unwrap());
    assert_eq!("aa", input);

    let mut input = "aaaa";
    let res: Result<Vec<char>, FabError> =
        'a'.fab_repeat().bound(1..=3).unwrap().fab(&mut input);
    assert_eq!(vec!['a', 'a', 'a'], res.unwrap());
    assert_eq!("a", input);

    let mut input = "aa";
    let res: Result<Vec<char>, FabError> = 'a'.fab_repeat().bound(3..).unwrap().fab(&mut input);
    assert!(res.is_err());
    assert_eq!("aa", input);

    let mut input = "aa";
    let res: Result<Vec<char>, FabError> = 'a'.fab_repeat().bound(..).unwrap().fab(&mut input);
    assert_eq!(vec!['a', 'a'], res.unwrap());

    let mut input = "aaa";
    let res: Result<Vec<char>, FabError> = 'a'
        .fab_repeat()
        .bound((Bound::Excluded(1), Bound::Included(2)))
        .unwrap()
        .fab(&mut input);
    assert_eq!(vec!['a', 'a'], res.unwrap());
    assert_eq!("a", input);

    let mut input = "a";
    let res: Result<Vec<char>, FabError> = 'a'
        .fab_repeat()
        .bound((Bound::Excluded(1), Bound::Included(2)))
        .unwrap()
        .fab(&mut input);
    assert!(res.is_err());
    assert_eq!("a", input);
}

#[test]
fn bound_rejects_a_start_above_the_greatest_number() {
    let rejected = 'a'
        .fab_repeat()
        .bound((Bound::Excluded(usize::MAX), Bound::Unbounded));
    let rejected: Option<Repeat<char, str, char, FabError, VecReducer, Vec<char>>> = rejected;
    assert!(rejected.is_none());
    let limits = 'a'
        .fab_repeat()
        .with_limits(Limit::Excluded(usize::MAX), Limit::Excluded(3));
    let limits: Option<Repeat<char, str, char, FabError, VecReducer, Vec<char>>> = limits;
    assert!(limits.is_none());
}

#[test]
fn normalize_gives_half_open_ranges() {
    assert_eq!(Some(0..usize::MAX), normalize(Limit::Unbounded, Limit::Unbounded));
    assert_eq!(Some(2..5), normalize(Limit::Included(2), Limit::Excluded(5)));
    assert_eq!(Some(3..6), normalize(Limit::Excluded(2), Limit::Included(5)));
    assert_eq!(
        Some(0..usize::MAX),
        normalize(Limit::Included(0), Limit::Included(usize::MAX))
    );
    assert_eq!(
        Some(usize::MAX..usize::MAX),
        normalize(Limit::Excluded(usize::MAX - 1), Limit::Excluded(usize::MAX))
    );
    assert_eq!(None, normalize(Limit::Excluded(usize::MAX), Limit::Unbounded));
}

#[test]
fn repeat_made_by_hand() {
    let mut input = "aab";
    let repeat = Repeat::new('a', Reducer { acc: Vec::new(), reduce_operator: VecReducer }, 0..3);
    let res: Result<Vec<char>, FabError> = repeat.fab(&mut input);
    assert_eq!(vec!['a', 'a'], res.unwrap());
    assert_eq!("b", input);
}

#[test]
fn repeat_runs_again_with_the_same_result() {
    let parser = ('a', opt('b')).fab_repeat().min(1);
    let mut first = "ababac";
    let mut second = "ababac";
    let one: Result<Vec<(char, Option<char>)>, FabError> = parser.fab(&mut first);
    let two: Result<Vec<(char, Option<char>)>, FabError> = parser.fab(&mut second);
    assert_eq!(one.unwrap(), two.unwrap());
    assert_eq!(first, second);
    assert_eq!("c", first);
    let mut first = "c";
    let mut second = "c";
    let one: Result<Vec<(char, Option<char>)>, FabError> = parser.fab(&mut first);
    let two: Result<Vec<(char, Option<char>)>, FabError> = parser.fab(&mut second);
    assert_eq!(one.unwrap_err().get_loc(), two.unwrap_err().get_loc());
    assert_eq!(first, second);
}

#[test]
fn repeat_stops_where_the_tuple_fails_midway() {
    let mut input = "a1b";
    let res: Result<Vec<(char, u32)>, FabError> =
        ('a'..='z', ('0'..='9').fab_try_map(|c: char| c.to_digit(10)))
            .fab_repeat()
            .fab(&mut input);
    assert_eq!(vec![('a', 1)], res.unwrap());
    assert_eq!("b", input);
}

#[test]
fn fold_once_gives_accumulator_and_answer() {
    let push_small = |acc: &mut Vec<u32>, val: u32| {
        if val < 10 {
            acc.push(val);
            true
        } else {
            false
        }
    };
    let (acc, held) = fold_once(&push_small, vec![1], 2);
    assert_eq!(vec![1, 2], acc);
    assert!(held);
    let (acc, held) = fold_once(&push_small, acc, 20);
    assert_eq!(vec![1, 2], acc);
    assert!(!held);
}

#[test]
fn reducers_fold_by_value() {
    let (acc, step) =
        <VecReducer as TryReducer<Vec<u32>, u32, VecReducer, _, Vec<u32>, str>>::try_reduce(
            &VecReducer,
            vec![1],
            2,
        );
    assert_eq!(vec![1, 2], acc);
    assert!(step.is_ok());
    let (_, step) =
        <InputSliceReducer as TryReducer<(), u32, InputSliceReducer, _, &str, str>>::try_reduce(
            &InputSliceReducer,
            (),
            2,
        );
    assert!(step.is_ok());
    let read = <InputSliceReducer as TryReducer<(), u32, InputSliceReducer, _, &str, str>>::finalize(
        &InputSliceReducer,
        (),
        "abc",
        &"abc"[2..],
    );
    assert_eq!("ab", read);
}

#[test]
fn limits_of_ranges() {
    assert_eq!(Limit::Included(1), (1usize..3).start_limit());
    assert_eq!(Limit::Excluded(3), (1usize..3).end_limit());
    assert_eq!(Limit::Included(1), (1usize..=3).start_limit());
    assert_eq!(Limit::Included(3), (1usize..=3).end_limit());
    assert_eq!(Limit::Included(1), (1usize..).start_limit());
    assert_eq!(Limit::Unbounded, (1usize..).end_limit());
    assert_eq!(Limit::Unbounded, (..3usize).start_limit());
    assert_eq!(Limit::Excluded(3), (..3usize).end_limit());
    assert_eq!(Limit::Unbounded, (..=3usize).start_limit());
    assert_eq!(Limit::Included(3), (..=3usize).end_limit());
    assert_eq!(Limit::Unbounded, (..).start_limit());
    assert_eq!(Limit::Unbounded, (..).end_limit());
    let pair = (Bound::Excluded(4usize), Bound::Unbounded);
    assert_eq!(Limit::Excluded(4), pair.start_limit());
    assert_eq!(Limit::Unbounded, pair.end_limit());
    assert_eq!(Limit::Included(7), limit_from(&Bound::Included(7)));
    let mut spent = 1usize..=2;
    assert_eq!(Some(1), spent.next());
    assert_eq!(Some(2), spent.next());
    assert_eq!(None, spent.next());
    assert_eq!(Limit::Excluded(2), spent.end_limit());
}
