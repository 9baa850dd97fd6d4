use fabparse::sequence::{subtract, Sequence};

#[test]
fn text_splits_at_scalar_boundaries_only() {
    let input = "aä€😀";
    assert_eq!(Some(("", input)), input.try_split_at(0));
    assert_eq!(Some(("a", "ä€😀")), input.try_split_at(1));
    assert_eq!(None, input.try_split_at(2));
    assert_eq!(Some(("aä", "€😀")), input.try_split_at(3));
    assert_eq!(None, input.try_split_at(4));
    assert_eq!(None, input.try_split_at(5));
    assert_eq!(Some(("aä€", "😀")), input.try_split_at(6));
    assert_eq!(None, input.try_split_at(9));
    assert_eq!(Some((input, "")), input.try_split_at(10));
    assert_eq!(None, input.try_split_at(11));
    assert_eq!(None, input.try_split_at(usize::MAX));
}

#[test]
fn text_length_is_in_bytes() {
    assert_eq!(10, Sequence::len("aä€😀"));
    assert_eq!(0, Sequence::len(""));
    assert!(Sequence::is_empty(""));
    assert!(!Sequence::is_empty("a"));
}

#[test]
fn text_split_front_gives_scalars() {
    assert_eq!(None, "".try_split_front());
    assert_eq!(Some(('a', "ä€😀")), "aä€😀".try_split_front());
    assert_eq!(Some(('ä', "€😀")), "ä€😀".try_split_front());
    assert_eq!(Some(('€', "😀")), "€😀".try_split_front());
    assert_eq!(Some(('😀', "")), "😀".try_split_front());
}

#[test]
fn slice_splits_at_every_index_in_range() {
    let slice = [1, 2, 3].as_slice();
    assert_eq!(Some(([].as_slice(), slice)), slice.try_split_at(0));
    assert_eq!(Some(([1, 2].as_slice(), [3].as_slice())), slice.try_split_at(2));
    assert_eq!(Some((slice, [].as_slice())), slice.try_split_at(3));
    assert_eq!(None, slice.try_split_at(4));
    assert_eq!(3, Sequence::len(slice));
    assert!(!Sequence::is_empty(slice));
    let empty: &[i32] = &[];
    assert!(Sequence::is_empty(empty));
}

#[test]
fn slice_split_front_clones_the_first() {
    let slice = [String::from("a"), String::from("b")];
    let (first, rest) = slice.as_slice().try_split_front().unwrap();
    assert_eq!("a", first);
    assert_eq!([String::from("b")], rest);
    let empty: &[String] = &[];
    assert_eq!(None, empty.try_split_front());
}

#[test]
fn subtract_gives_what_was_read() {
    let input = "aä€😀";
    assert_eq!("aä", subtract(input, &input[3..]));
    assert_eq!("", subtract(input, input));
    assert_eq!(input, subtract(input, &input[10..]));
    let slice = [1, 2, 3].as_slice();
    assert_eq!([1], subtract(slice, &slice[1..]));
}
