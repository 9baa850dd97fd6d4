use fabparse::error::{get_surrounding_context, loc};

#[test]
fn test_get_surrounding_context_success() {
    let input = "abcdefgh";
    let place = loc(input) + 4;
    let (start, rest) = get_surrounding_context(input, place, 3);
    assert_eq!(start, "bcd");
    assert_eq!(rest, "efg");
}

#[test]
fn test_get_surrounding_context_trimmed() {
    let input = "abcd";
    let place = loc(input) + 2;
    let (start, rest) = get_surrounding_context(input, place, 3);
    assert_eq!(start, "ab");
    assert_eq!(rest, "cd");
}
