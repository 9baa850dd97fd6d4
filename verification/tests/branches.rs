use fabparse::{alt, opt, permutation, take, FabError, NoContextFabError, Parser, ParserError};

#[test]
fn alt_takes_first_branch() {
    let mut input = "abc";
    let res: Result<char, FabError> = alt(('a', 'b')).fab(&mut input);
    assert_eq!('a', res.unwrap());
    assert_eq!("bc", input);
}

#[test]
fn alt_takes_second_branch() {
    let mut input = "bca";
    let res: Result<char, FabError> = alt(('a', 'b')).fab(&mut input);
    assert_eq!('b', res.unwrap());
    assert_eq!("ca", input);
}

#[test]
fn alt_fails_where_all_fail() {
    let mut input = "cab";
    let res: Result<char, FabError> = alt(('a', 'b')).fab(&mut input);
    assert!(res.is_err());
    assert_eq!("cab", input);
}

#[test]
fn alt_of_one() {
    let mut input = "abc";
    let res: Result<char, FabError> = alt(('a',)).fab(&mut input);
    assert_eq!('a', res.unwrap());
    assert_eq!("bc", input);
}

#[test]
fn alt_returns_error_of_furthest_branch() {
    let mut input = "abc";
    let start = usize::MAX - input.len();
    let short = ('a'.fab_try_map(|_| None::<char>), 'b').fab_map(|pair: (char, char)| pair.1);
    let long = ('a', 'b', 'x').fab_map(|triple: (char, char, char)| triple.2);
    let res: Result<char, FabError> = alt((long, short)).fab(&mut input);
    assert_eq!(Some(start + 2), res.unwrap_err().get_loc());
    assert_eq!("abc", input);

    let short = ('a'.fab_try_map(|_| None::<char>), 'b').fab_map(|pair: (char, char)| pair.1);
    let long = ('a', 'b', 'x').fab_map(|triple: (char, char, char)| triple.2);
    let res: Result<char, FabError> = alt((short, long)).fab(&mut input);
    assert_eq!(Some(start + 2), res.unwrap_err().get_loc());
    assert_eq!("abc", input);
}

#[test]
fn alt_without_locations_returns_last_error() {
    let mut input = "cab";
    let res: Result<char, NoContextFabError> = alt(('a', 'b')).fab(&mut input);
    assert_eq!(None, res.unwrap_err().get_loc());
    assert_eq!("cab", input);
}

#[test]
fn alt_of_eleven() {
    let branches = ('a', 'b', 'c', 'd', 'e', 'f', 'g', 'h', 'i', 'j', 'k');
    let mut input = "kz";
    let res: Result<char, FabError> = alt(branches).fab(&mut input);
    assert_eq!('k', res.unwrap());
    assert_eq!("z", input);
    let mut input = "z";
    let res: Result<char, FabError> = alt(branches).fab(&mut input);
    assert!(res.is_err());
    assert_eq!("z", input);
}

#[test]
fn tuple_of_one() {
    let mut input = "abc";
    let res: Result<(char,), FabError> = ('a',).fab(&mut input);
    assert_eq!(('a',), res.unwrap());
    assert_eq!("bc", input);
}

#[test]
fn tuple_of_eleven() {
    let parsers = ('a', 'b', 'c', 'd', 'e', 'f', 'g', 'h', 'i', 'j', 'k');
    let mut input = "abcdefghijkl";
    let res: Result<_, FabError> = parsers.fab(&mut input);
    assert_eq!(('a', 'b', 'c', 'd', 'e', 'f', 'g', 'h', 'i', 'j', 'k'), res.unwrap());
    assert_eq!("l", input);
    let mut input = "abcdefghijxl";
    let res: Result<(char, char, char, char, char, char, char, char, char, char, char), FabError> =
        parsers.fab(&mut input);
    let start = usize::MAX - input.len();
    assert_eq!(Some(start + 10), res.unwrap_err().get_loc());
    assert_eq!("abcdefghijxl", input);
}

#[test]
fn tuple_failure_in_the_middle_restores_the_cursor() {
    let mut slice = [1, 2, 3, 4].as_slice();
    let res: Result<(i32, i32, i32), FabError> = (1, 2, 4).fab(&mut slice);
    assert!(res.is_err());
    assert_eq!([1, 2, 3, 4], slice);
}

#[test]
fn permutation_in_declared_order() {
    let mut input = "abc";
    let res: Result<(char, char), FabError> = permutation(('a', 'b')).fab(&mut input);
    assert_eq!(('a', 'b'), res.unwrap());
    assert_eq!("c", input);
}

#[test]
fn permutation_in_other_order() {
    let mut input = "bac";
    let res: Result<(char, char), FabError> = permutation(('a', 'b')).fab(&mut input);
    assert_eq!(('a', 'b'), res.unwrap());
    assert_eq!("c", input);
}

#[test]
fn permutation_with_parsers_swapped() {
    let mut input = "bac";
    let res: Result<(char, char), FabError> = permutation(('b', 'a')).fab(&mut input);
    assert_eq!(('b', 'a'), res.unwrap());
    assert_eq!("c", input);
    let mut input = "abc";
    let res: Result<(char, char), FabError> = permutation(('b', 'a')).fab(&mut input);
    assert_eq!(('b', 'a'), res.unwrap());
    assert_eq!("c", input);
    let mut input = "acb";
    let first: Result<(char, char), FabError> = permutation(('a', 'b')).fab(&mut input);
    let second: Result<(char, char), FabError> = permutation(('b', 'a')).fab(&mut input);
    assert!(first.is_err());
    assert!(second.is_err());
}

#[test]
fn permutation_fails_where_one_is_missing() {
    let mut input = "acb";
    let start = usize::MAX - input.len();
    let res: Result<(char, char), FabError> = permutation(('a', 'b')).fab(&mut input);
    assert_eq!(Some(start + 1), res.unwrap_err().get_loc());
    assert_eq!("acb", input);
}

#[test]
fn permutation_of_one() {
    let mut input = "abc";
    let res: Result<(char,), FabError> = permutation(('a',)).fab(&mut input);
    assert_eq!(('a',), res.unwrap());
    assert_eq!("bc", input);
}

#[test]
fn permutation_of_three_mixed_outputs() {
    let mut slice = [3, 1, 2, 9].as_slice();
    let res: Result<(i32, &[i32], Option<i32>), FabError> =
        permutation((1, take(1), opt(3))).fab(&mut slice);
    let (one, taken, three) = res.unwrap();
    assert_eq!(1, one);
    assert_eq!([3], taken);
    assert_eq!(None, three);
    assert_eq!([2, 9], slice);
}

#[test]
fn permutation_of_eleven() {
    let parsers = ('a', 'b', 'c', 'd', 'e', 'f', 'g', 'h', 'i', 'j', 'k');
    let mut input = "kjihgfedcba!";
    let res: Result<_, FabError> = permutation(parsers).fab(&mut input);
    assert_eq!(('a', 'b', 'c', 'd', 'e', 'f', 'g', 'h', 'i', 'j', 'k'), res.unwrap());
    assert_eq!("!", input);
    let mut input = "kjihgfedcb!";
    let res: Result<(char, char, char, char, char, char, char, char, char, char, char), FabError> =
        permutation(parsers).fab(&mut input);
    assert!(res.is_err());
    assert_eq!("kjihgfedcb!", input);
}
