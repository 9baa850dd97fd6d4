//! The parsers that are not made of parsers: items, sequences, arrays,
//! ranges, functions on items, `take`, and functions on cursors.

use crate::error::{position, reports_cause, Cause, ParserError};
use crate::sequence::{
    is_suffix, lemma_extent_split, lemma_tail_is_suffix, subtract, Sequence,
};
use crate::{Parser, ParserType};
use std::ops::{
    Bound, Range, RangeBounds, RangeFrom, RangeFull, RangeInclusive, RangeTo, RangeToInclusive,
};
use vstd::prelude::*;

verus! {

/// `char`'s `==` holds of two characters that are the same scalar value.
pub assume_specification[ <char as PartialEq>::eq ](a: &char, b: &char) -> (same: bool)
    ensures
        same == (*a == *b),
;

/// `char`'s `<=` holds of two characters of which the first is the lesser
/// scalar value, or the same.
pub assume_specification[ <char as PartialOrd>::le ](a: &char, b: &char) -> (held: bool)
    ensures
        held == (*a <= *b),
;

/// `char`'s `<` holds of two characters of which the first is the lesser
/// scalar value.
pub assume_specification[ <char as PartialOrd>::lt ](a: &char, b: &char) -> (held: bool)
    ensures
        held == (*a < *b),
;

/// `str`'s `==` holds of two strings with the same characters.
pub assume_specification[ <str as PartialEq>::eq ](a: &str, b: &str) -> (same: bool)
    ensures
        same == (a@ == b@),
;

/// `front` is the first item of `seq` as `try_split_front` hands it out,
/// and `rest` is what follows it.
pub open spec fn splits_front<I: ?Sized + Sequence>(seq: &I, front: I::Item, rest: &I) -> bool {
    &&& seq.items().len() > 0
    &&& cloned(seq.items()[0], front)
    &&& rest.items() == seq.items().drop_first()
}

/// `arg` is a clone of the first item of `seq` as `try_split_front` hands
/// it out.
pub open spec fn handed_out<I: ?Sized + Sequence>(seq: &I, arg: I::Item) -> bool {
    &&& seq.items().len() > 0
    &&& exists|front: I::Item| cloned(seq.items()[0], front) && #[trigger] cloned(front, arg)
}

/// What a primitive reports when it does not match: an error of kind
/// `Tag` at the cursor, which stays where it was.
pub open spec fn no_match<I: ?Sized + Sequence, E: ParserError>(
    before: &I,
    err: E,
    after: &I,
) -> bool {
    &&& after == before
    &&& err.is_parser_error(position(before), ParserType::Tag)
}

/// Marks the parser that an item is.
pub struct ItemSeqParser;

/// An item is a parser: it reads one item that is equal to it.
impl<'a, Item: PartialEq + Clone, I, E> Parser<'a, I, Item, E, ItemSeqParser> for Item where
    I: ?Sized + Sequence<Item = Item>,
    E: ParserError,
 {
    open spec fn ready(&self) -> bool {
        true
    }

    open spec fn outcome(&self, before: &I, res: Result<Item, E>, after: &I) -> bool {
        match res {
            Ok(out) => {
                &&& splits_front(before, out, after)
                &&& call_ensures(Item::eq, (&out, self), true)
            },
            Err(err) => {
                &&& no_match(before, err, after)
                &&& before.items().len() > 0 ==> exists|front: Item|
                    cloned(before.items()[0], front) && #[trigger] call_ensures(
                        Item::eq,
                        (&front, self),
                        false,
                    )
            },
        }
    }

    fn fab(&self, input: &mut &'a I) -> (res: Result<Item, E>) {
        match input.try_split_front() {
            Some((start, rest)) => {
                if start == *self {
                    *input = rest;
                    Ok(start)
                } else {
                    Err(E::from_parser_error(*input, ParserType::Tag))
                }
            },
            None => Err(E::from_parser_error(*input, ParserType::Tag)),
        }
    }
}

/// Marks the parser that a sequence is.
pub struct SeqSeqParser;

/// A sequence is a parser: it reads as much as it is long, where that is
/// equal to it.
impl<'a, I, E> Parser<'a, I, &'a I, E, SeqSeqParser> for &I where
    I: ?Sized + Sequence + PartialEq,
    E: ParserError,
 {
    open spec fn ready(&self) -> bool {
        true
    }

    open spec fn outcome(&self, before: &I, res: Result<&'a I, E>, after: &I) -> bool {
        match res {
            Ok(out) => {
                &&& out.items() + after.items() == before.items()
                &&& I::extent(out.items()) == I::extent(self.items())
                &&& call_ensures(I::eq, (out, *self), true)
            },
            Err(err) => {
                &&& no_match(before, err, after)
                &&& forall|head: &I, tail: &I|
                    #![trigger head.items() + tail.items()]
                    head.items() + tail.items() == before.items() && I::extent(head.items())
                        == I::extent(self.items()) ==> exists|found: &I|
                        found.items() == head.items() && #[trigger] call_ensures(
                            I::eq,
                            (found, *self),
                            false,
                        )
            },
        }
    }

    fn fab(&self, input: &mut &'a I) -> (res: Result<&'a I, E>) {
        match input.try_split_at(self.len()) {
            Some((start, rest)) => {
                if *start == **self {
                    proof {
                        lemma_tail_is_suffix(start.items(), rest.items());
                    }
                    *input = rest;
                    Ok(start)
                } else {
                    proof {
                        lemma_same_head::<I>(old(input).items(), start.items(), rest.items());
                    }
                    Err(E::from_parser_error(*input, ParserType::Tag))
                }
            },
            None => {
                proof {
                    lemma_no_head::<I>(old(input).items(), I::extent(self.items()) as int);
                }
                Err(E::from_parser_error(*input, ParserType::Tag))
            },
        }
    }
}

/// Marks the parser that an array is.
pub struct ConstArrayParser;

/// An array is a parser: it reads what its slice reads.
impl<'a, E, Item, const N: usize> Parser<'a, [Item], &'a [Item], E, ConstArrayParser> for [Item; N] where
    E: ParserError,
    Item: Clone + PartialEq,
 {
    open spec fn ready(&self) -> bool {
        true
    }

    open spec fn outcome(&self, before: &[Item], res: Result<&'a [Item], E>, after: &[Item]) -> bool {
        exists|slice: &[Item]|
            slice@ == self@ && #[trigger] <&[Item] as Parser<
                'a,
                [Item],
                &'a [Item],
                E,
                SeqSeqParser,
            >>::outcome(&slice, before, res, after)
    }

    fn fab(&self, input: &mut &'a [Item]) -> (res: Result<&'a [Item], E>) {
        self.as_slice().fab(input)
    }
}

/// Marks the parser that a predicate on items is.
pub struct FnBoolSeqParser;

/// A predicate on items is a parser: it reads one item of which it holds.
impl<'a, I, F, E, Item> Parser<'a, I, Item, E, FnBoolSeqParser> for F where
    I: ?Sized + Sequence<Item = Item>,
    F: Fn(Item) -> bool,
    E: ParserError,
    Item: Clone,
 {
    open spec fn ready(&self) -> bool {
        forall|item: Item| call_requires(*self, (item,))
    }

    open spec fn outcome(&self, before: &I, res: Result<Item, E>, after: &I) -> bool {
        match res {
            Ok(out) => {
                &&& splits_front(before, out, after)
                &&& exists|arg: Item| cloned(out, arg) && #[trigger] call_ensures(*self, (arg,), true)
            },
            Err(err) => {
                &&& no_match(before, err, after)
                &&& before.items().len() > 0 ==> exists|arg: Item|
                    handed_out(before, arg) && #[trigger] call_ensures(*self, (arg,), false)
            },
        }
    }

    fn fab(&self, input: &mut &'a I) -> (res: Result<Item, E>) {
        match input.try_split_front() {
            Some((first, rest)) => {
                let arg = first.clone();
                assert(cloned(first, arg));
                if self(arg) {
                    *input = rest;
                    Ok(first)
                } else {
                    Err(E::from_parser_error(*input, ParserType::Tag))
                }
            },
            None => Err(E::from_parser_error(*input, ParserType::Tag)),
        }
    }
}

/// Marks the parser that a function from an item to an option is.
pub struct FnOptionSeqParser;

/// A function from an item to an option is a parser: it reads one item for
/// which it gives a value, and returns the value.
impl<'a, I, F, E, Item, FnOut> Parser<'a, I, FnOut, E, FnOptionSeqParser> for F where
    I: ?Sized + Sequence<Item = Item>,
    F: Fn(Item) -> Option<FnOut>,
    E: ParserError,
    Item: Clone,
 {
    open spec fn ready(&self) -> bool {
        forall|item: Item| call_requires(*self, (item,))
    }

    open spec fn outcome(&self, before: &I, res: Result<FnOut, E>, after: &I) -> bool {
        match res {
            Ok(out) => {
                &&& after.items() == before.items().drop_first()
                &&& exists|arg: Item, given: Option<FnOut>|
                    {
                        &&& handed_out(before, arg)
                        &&& #[trigger] call_ensures(*self, (arg,), given)
                        &&& given == Some(out)
                    }
            },
            Err(err) => {
                &&& no_match(before, err, after)
                &&& before.items().len() > 0 ==> exists|arg: Item|
                    handed_out(before, arg) && #[trigger] call_ensures(
                        *self,
                        (arg,),
                        None::<FnOut>,
                    )
            },
        }
    }

    fn fab(&self, input: &mut &'a I) -> (res: Result<FnOut, E>) {
        match input.try_split_front() {
            Some((first, rest)) => {
                let arg = first.clone();
                assert(cloned(first, arg));
                assert(handed_out(*old(input), arg));
                match self(arg) {
                    Some(out) => {
                        *input = rest;
                        Ok(out)
                    },
                    None => Err(E::from_parser_error(*input, ParserType::Tag)),
                }
            },
            None => Err(E::from_parser_error(*input, ParserType::Tag)),
        }
    }
}

/// Marks the parser that a function from an item to a result is.
pub struct FnResultSeqParser;

/// A function from an item to a result is a parser: it reads one item for
/// which it gives a value, and returns the value. Its own error becomes the
/// cause of the parser's.
impl<'a, I, F, E, Item, FnOut, FnErr> Parser<'a, I, FnOut, E, FnResultSeqParser> for F where
    I: ?Sized + Sequence<Item = Item>,
    F: Fn(Item) -> Result<FnOut, FnErr>,
    E: ParserError,
    Item: Clone,
    FnErr: Cause,
 {
    open spec fn ready(&self) -> bool {
        forall|item: Item| call_requires(*self, (item,))
    }

    open spec fn outcome(&self, before: &I, res: Result<FnOut, E>, after: &I) -> bool {
        match res {
            Ok(out) => {
                &&& after.items() == before.items().drop_first()
                &&& exists|arg: Item, given: Result<FnOut, FnErr>|
                    {
                        &&& handed_out(before, arg)
                        &&& #[trigger] call_ensures(*self, (arg,), given)
                        &&& given == Ok::<FnOut, FnErr>(out)
                    }
            },
            Err(err) => {
                &&& after == before
                &&& if before.items().len() == 0 {
                    err.is_parser_error(position(before), ParserType::Tag)
                } else {
                    exists|arg: Item, given: Result<FnOut, FnErr>|
                        {
                            &&& handed_out(before, arg)
                            &&& #[trigger] call_ensures(*self, (arg,), given)
                            &&& given matches Err(cause) && reports_cause(
                                err,
                                position(before),
                                ParserType::Tag,
                                cause,
                            )
                        }
                }
            },
        }
    }

    fn fab(&self, input: &mut &'a I) -> (res: Result<FnOut, E>) {
        match input.try_split_front() {
            Some((first, rest)) => {
                let arg = first.clone();
                assert(cloned(first, arg));
                assert(handed_out(*old(input), arg));
                match self(arg) {
                    Ok(out) => {
                        *input = rest;
                        Ok(out)
                    },
                    Err(cause) => Err(E::from_external_error(*input, ParserType::Tag, cause)),
                }
            },
            None => Err(E::from_parser_error(*input, ParserType::Tag)),
        }
    }
}

/// Marks the parser that a range of items is.
pub struct RangeSeqParser;

/// `item` is found to lie between `low` and `high`, or not to: `low` is
/// less than or equal to it, and it is less than `high`, or less than or
/// equal to `high` where `closed`. Where `low` is found not to be less than
/// or equal to `item`, `high` is not asked.
pub open spec fn lies_between<T: PartialOrd>(
    low: &T,
    item: &T,
    high: &T,
    closed: bool,
    held: bool,
) -> bool {
    if held {
        &&& call_ensures(T::le, (low, item), true)
        &&& if closed {
            call_ensures(T::le, (item, high), true)
        } else {
            call_ensures(T::lt, (item, high), true)
        }
    } else {
        ||| call_ensures(T::le, (low, item), false)
        ||| {
            &&& call_ensures(T::le, (low, item), true)
            &&& if closed {
                call_ensures(T::le, (item, high), false)
            } else {
                call_ensures(T::lt, (item, high), false)
            }
        }
    }
}

/// A range of items is a parser: it reads one item that its start is less
/// than or equal to and that is less than its end.
impl<'a, Item, I, E> Parser<'a, I, Item, E, RangeSeqParser> for Range<Item> where
    I: ?Sized + Sequence<Item = Item>,
    E: ParserError,
    Item: PartialOrd + Clone,
 {
    open spec fn ready(&self) -> bool {
        true
    }

    open spec fn outcome(&self, before: &I, res: Result<Item, E>, after: &I) -> bool {
        match res {
            Ok(out) => {
                &&& splits_front(before, out, after)
                &&& lies_between(&self.start, &out, &self.end, false, true)
            },
            Err(err) => {
                &&& no_match(before, err, after)
                &&& before.items().len() > 0 ==> exists|front: Item|
                    #[trigger] cloned(before.items()[0], front) && lies_between(
                        &self.start,
                        &front,
                        &self.end,
                        false,
                        false,
                    )
            },
        }
    }

    fn fab(&self, input: &mut &'a I) -> (res: Result<Item, E>) {
        match input.try_split_front() {
            Some((start, rest)) => {
                if self.start <= start && start < self.end {
                    *input = rest;
                    Ok(start)
                } else {
                    Err(E::from_parser_error(*input, ParserType::Tag))
                }
            },
            None => Err(E::from_parser_error(*input, ParserType::Tag)),
        }
    }
}

/// One end of a range of items: an item that the range holds, an item
/// that it stops before, or none.
pub enum End<'a, T> {
    Included(&'a T),
    Excluded(&'a T),
    Unbounded,
}

/// `RangeInclusive::start` gives the first item of a range that has not
/// been iterated to its end.
pub assume_specification<Idx>[ RangeInclusive::<Idx>::start ](range: &RangeInclusive<Idx>) -> (first:
    &Idx)
    ensures
        !range@.exhausted ==> *first == range@.start,
;

/// `RangeBounds::end_bound` of a `RangeInclusive`: the upper end of the
/// range and whether the range holds it. A range that has not been
/// iterated to its end holds its last item.
#[verifier::external_body]
pub(crate) fn last_of<Idx>(range: &RangeInclusive<Idx>) -> (last: End<'_, Idx>)
    ensures
        !range@.exhausted ==> last == End::Included(&range@.end),
{
    match range.end_bound() {
        Bound::Included(end) => End::Included(end),
        Bound::Excluded(end) => End::Excluded(end),
        Bound::Unbounded => End::Unbounded,
    }
}

/// A range of items with its last item is a parser: it reads one item that
/// lies between its two ends. Of a range that has been iterated to its end
/// nothing more is said than of any parser.
impl<'a, Item, I, E> Parser<'a, I, Item, E, RangeSeqParser> for RangeInclusive<Item> where
    I: ?Sized + Sequence<Item = Item>,
    E: ParserError,
    Item: PartialOrd + Clone,
 {
    open spec fn ready(&self) -> bool {
        true
    }

    open spec fn outcome(&self, before: &I, res: Result<Item, E>, after: &I) -> bool {
        match res {
            Ok(out) => {
                &&& splits_front(before, out, after)
                &&& !self@.exhausted ==> lies_between(
                    &self@.start,
                    &out,
                    &self@.end,
                    true,
                    true,
                )
            },
            Err(err) => {
                &&& no_match(before, err, after)
                &&& before.items().len() > 0 && !self@.exhausted ==> exists|front: Item|
                    #[trigger] cloned(before.items()[0], front) && lies_between(
                        &self@.start,
                        &front,
                        &self@.end,
                        true,
                        false,
                    )
            },
        }
    }

    fn fab(&self, input: &mut &'a I) -> (res: Result<Item, E>) {
        match input.try_split_front() {
            Some((start, rest)) => {
                let above = *self.start() <= start;
                let inside = above && match last_of(self) {
                    End::Included(end) => start <= *end,
                    End::Excluded(end) => start < *end,
                    End::Unbounded => true,
                };
                if inside {
                    *input = rest;
                    Ok(start)
                } else {
                    Err(E::from_parser_error(*input, ParserType::Tag))
                }
            },
            None => Err(E::from_parser_error(*input, ParserType::Tag)),
        }
    }
}

/// `std::ops::RangeFrom`: a range with a first item and no end. Its one
/// field, `start`, is public.
#[verifier::external_type_specification]
#[verifier::reject_recursive_types(Idx)]
pub struct ExRangeFrom<Idx>(RangeFrom<Idx>);

/// `std::ops::RangeTo`: a range up to an item that it does not hold. Its
/// one field, `end`, is public.
#[verifier::external_type_specification]
#[verifier::reject_recursive_types(Idx)]
pub struct ExRangeTo<Idx>(RangeTo<Idx>);

/// `std::ops::RangeToInclusive`: a range up to an item that it holds. Its
/// one field, `end`, is public.
#[verifier::external_type_specification]
#[verifier::reject_recursive_types(Idx)]
pub struct ExRangeToInclusive<Idx>(RangeToInclusive<Idx>);

/// `std::ops::RangeFull`: the range of all items. It has no fields.
#[verifier::external_type_specification]
pub struct ExRangeFull(RangeFull);

/// A range from an item on is a parser: it reads one item that its start
/// is less than or equal to.
impl<'a, Item, I, E> Parser<'a, I, Item, E, RangeSeqParser> for RangeFrom<Item> where
    I: ?Sized + Sequence<Item = Item>,
    E: ParserError,
    Item: PartialOrd + Clone,
 {
    open spec fn ready(&self) -> bool {
        true
    }

    open spec fn outcome(&self, before: &I, res: Result<Item, E>, after: &I) -> bool {
        match res {
            Ok(out) => {
                &&& splits_front(before, out, after)
                &&& call_ensures(Item::le, (&self.start, &out), true)
            },
            Err(err) => {
                &&& no_match(before, err, after)
                &&& before.items().len() > 0 ==> exists|front: Item|
                    cloned(before.items()[0], front) && #[trigger] call_ensures(
                        Item::le,
                        (&self.start, &front),
                        false,
                    )
            },
        }
    }

    fn fab(&self, input: &mut &'a I) -> (res: Result<Item, E>) {
        match input.try_split_front() {
            Some((start, rest)) => {
                if self.start <= start {
                    *input = rest;
                    Ok(start)
                } else {
                    Err(E::from_parser_error(*input, ParserType::Tag))
                }
            },
            None => Err(E::from_parser_error(*input, ParserType::Tag)),
        }
    }
}

/// A range up to an item is a parser: it reads one item that is less than
/// its end.
impl<'a, Item, I, E> Parser<'a, I, Item, E, RangeSeqParser> for RangeTo<Item> where
    I: ?Sized + Sequence<Item = Item>,
    E: ParserError,
    Item: PartialOrd + Clone,
 {
    open spec fn ready(&self) -> bool {
        true
    }

    open spec fn outcome(&self, before: &I, res: Result<Item, E>, after: &I) -> bool {
        match res {
            Ok(out) => {
                &&& splits_front(before, out, after)
                &&& call_ensures(Item::lt, (&out, &self.end), true)
            },
            Err(err) => {
                &&& no_match(before, err, after)
                &&& before.items().len() > 0 ==> exists|front: Item|
                    cloned(before.items()[0], front) && #[trigger] call_ensures(
                        Item::lt,
                        (&front, &self.end),
                        false,
                    )
            },
        }
    }

    fn fab(&self, input: &mut &'a I) -> (res: Result<Item, E>) {
        match input.try_split_front() {
            Some((start, rest)) => {
                if start < self.end {
                    *input = rest;
                    Ok(start)
                } else {
                    Err(E::from_parser_error(*input, ParserType::Tag))
                }
            },
            None => Err(E::from_parser_error(*input, ParserType::Tag)),
        }
    }
}

/// A range up to an item and with it is a parser: it reads one item that
/// is less than or equal to its end.
impl<'a, Item, I, E> Parser<'a, I, Item, E, RangeSeqParser> for RangeToInclusive<Item> where
    I: ?Sized + Sequence<Item = Item>,
    E: ParserError,
    Item: PartialOrd + Clone,
 {
    open spec fn ready(&self) -> bool {
        true
    }

    open spec fn outcome(&self, before: &I, res: Result<Item, E>, after: &I) -> bool {
        match res {
            Ok(out) => {
                &&& splits_front(before, out, after)
                &&& call_ensures(Item::le, (&out, &self.end), true)
            },
            Err(err) => {
                &&& no_match(before, err, after)
                &&& before.items().len() > 0 ==> exists|front: Item|
                    cloned(before.items()[0], front) && #[trigger] call_ensures(
                        Item::le,
                        (&front, &self.end),
                        false,
                    )
            },
        }
    }

    fn fab(&self, input: &mut &'a I) -> (res: Result<Item, E>) {
        match input.try_split_front() {
            Some((start, rest)) => {
                if start <= self.end {
                    *input = rest;
                    Ok(start)
                } else {
                    Err(E::from_parser_error(*input, ParserType::Tag))
                }
            },
            None => Err(E::from_parser_error(*input, ParserType::Tag)),
        }
    }
}

/// `std::ops::Bound`: one end of a range, with its three public variants.
#[verifier::external_type_specification]
#[verifier::reject_recursive_types(T)]
pub struct ExBound<T>(Bound<T>);

/// `item` is found to lie above the lower end `low`, or not to.
pub open spec fn lies_above<T: PartialOrd>(low: Bound<T>, item: &T, held: bool) -> bool {
    match low {
        Bound::Included(first) => call_ensures(T::le, (&first, item), held),
        Bound::Excluded(before) => call_ensures(T::lt, (&before, item), held),
        Bound::Unbounded => held,
    }
}

/// `item` is found to lie below the upper end `high`, or not to.
pub open spec fn lies_below<T: PartialOrd>(item: &T, high: Bound<T>, held: bool) -> bool {
    match high {
        Bound::Included(last) => call_ensures(T::le, (item, &last), held),
        Bound::Excluded(after) => call_ensures(T::lt, (item, &after), held),
        Bound::Unbounded => held,
    }
}

/// A pair of a lower and an upper end is a parser: it reads one item that
/// lies above the first and below the second. Where the item is found not
/// to lie above the first, the second is not asked.
impl<'a, Item, I, E> Parser<'a, I, Item, E, RangeSeqParser> for (Bound<Item>, Bound<Item>) where
    I: ?Sized + Sequence<Item = Item>,
    E: ParserError,
    Item: PartialOrd + Clone,
 {
    open spec fn ready(&self) -> bool {
        true
    }

    open spec fn outcome(&self, before: &I, res: Result<Item, E>, after: &I) -> bool {
        match res {
            Ok(out) => {
                &&& splits_front(before, out, after)
                &&& lies_above(self.0, &out, true)
                &&& lies_below(&out, self.1, true)
            },
            Err(err) => {
                &&& no_match(before, err, after)
                &&& before.items().len() > 0 ==> exists|front: Item|
                    #[trigger] cloned(before.items()[0], front) && {
                        ||| lies_above(self.0, &front, false)
                        ||| lies_above(self.0, &front, true) && lies_below(&front, self.1, false)
                    }
            },
        }
    }

    fn fab(&self, input: &mut &'a I) -> (res: Result<Item, E>) {
        match input.try_split_front() {
            Some((start, rest)) => {
                let above = match &self.0 {
                    Bound::Included(first) => *first <= start,
                    Bound::Excluded(before) => *before < start,
                    Bound::Unbounded => true,
                };
                let inside = above && match &self.1 {
                    Bound::Included(last) => start <= *last,
                    Bound::Excluded(after) => start < *after,
                    Bound::Unbounded => true,
                };
                if inside {
                    *input = rest;
                    Ok(start)
                } else {
                    Err(E::from_parser_error(*input, ParserType::Tag))
                }
            },
            None => Err(E::from_parser_error(*input, ParserType::Tag)),
        }
    }
}

/// The range of all items is a parser: it reads one item, whatever it is.
impl<'a, I, E> Parser<'a, I, I::Item, E, RangeSeqParser> for RangeFull where
    I: ?Sized + Sequence,
    E: ParserError,
 {
    open spec fn ready(&self) -> bool {
        true
    }

    open spec fn outcome(&self, before: &I, res: Result<I::Item, E>, after: &I) -> bool {
        match res {
            Ok(out) => splits_front(before, out, after),
            Err(err) => {
                &&& no_match(before, err, after)
                &&& before.items().len() == 0
            },
        }
    }

    fn fab(&self, input: &mut &'a I) -> (res: Result<I::Item, E>) {
        match input.try_split_front() {
            Some((start, rest)) => {
                *input = rest;
                Ok(start)
            },
            None => Err(E::from_parser_error(*input, ParserType::Tag)),
        }
    }
}

/// The parser that reads a given number of items, whatever they are.
pub struct Take(pub usize);

impl<'a, I, E: ParserError> Parser<'a, I, &'a I, E, Take> for Take where I: ?Sized + Sequence {
    open spec fn ready(&self) -> bool {
        true
    }

    open spec fn outcome(&self, before: &I, res: Result<&'a I, E>, after: &I) -> bool {
        match res {
            Ok(out) => {
                &&& self.0 <= before.items().len()
                &&& out.items() == before.items().take(self.0 as int)
                &&& after.items() == before.items().skip(self.0 as int)
            },
            Err(err) => {
                &&& no_match(before, err, after)
                &&& before.items().len() < self.0
            },
        }
    }

    fn fab(&self, input: &mut &'a I) -> (res: Result<&'a I, E>) {
        let orig = *input;
        let mut taken: usize = 0;
        while taken < self.0
            invariant
                taken <= self.0,
                taken <= orig.items().len(),
                input.items() == orig.items().skip(taken as int),
                orig == *old(input),
            decreases self.0 - taken,
        {
            match input.try_split_front() {
                Some((_first, rest)) => {
                    assert(orig.items().skip(taken as int).drop_first() =~= orig.items().skip(
                        taken + 1,
                    ));
                    *input = rest;
                },
                None => {
                    *input = orig;
                    return Err(E::from_parser_error(*input, ParserType::Tag));
                },
            }
            taken += 1;
        }
        let read = subtract(orig, *input);
        proof {
            let all = orig.items();
            let n = taken as int;
            assert(read.items() =~= all.take(n)) by {
                assert(all =~= all.take(n) + all.skip(n));
                assert(read.items().len() == n);
                assert((read.items() + input.items()).take(n) =~= read.items());
            }
        }
        Ok(read)
    }
}

/// Marks the parser that a function from a cursor to a result is.
pub struct ParserFunction;

/// Calls a function on a cursor, and returns what the function returned
/// and where it left the cursor.
pub fn run_function<'c, I: ?Sized, O, E, F: Fn(&mut &'c I) -> Result<O, E>>(
    function: &F,
    cursor: &'c I,
) -> (out: (Result<O, E>, &'c I))
    requires
        forall|slot: &mut &'c I| call_requires(*function, (slot,)),
    ensures
        exists|slot: &mut &'c I, given: Result<O, E>|
            {
                &&& *slot == cursor
                &&& *final(slot) == out.1
                &&& given == out.0
                &&& #[trigger] call_ensures(*function, (slot,), given)
            },
{
    let mut moved = cursor;
    let given = function(&mut moved);
    (given, moved)
}

/// Called on `cursor`, `function` may return `given` and leave the cursor
/// at `left`: it is a result of [`run_function`], of which the `ensures` of
/// [`run_function`] holds.
pub open spec fn runs<'c, I: ?Sized, O, E, F: Fn(&mut &'c I) -> Result<O, E>>(
    function: &F,
    cursor: &'c I,
    given: Result<O, E>,
    left: &'c I,
) -> bool {
    call_ensures(run_function::<I, O, E, F>, (function, cursor), (given, left))
}

/// `tail` is what `whole` ends with that is as long as `left`.
pub open spec fn is_tail_like<I: ?Sized + Sequence>(tail: &I, whole: &I, left: &I) -> bool {
    &&& is_suffix(tail.items(), whole.items())
    &&& I::extent(tail.items()) == I::extent(left.items())
}

/// `whole` ends with something that is as long as `left`.
pub open spec fn has_tail_like<I: ?Sized + Sequence>(whole: &I, left: &I) -> bool {
    exists|k: int|
        0 <= k <= whole.items().len() && #[trigger] I::extent(whole.items().skip(k)) == I::extent(
            left.items(),
        )
}

/// A function from a cursor to a result is a parser. What it returns is
/// returned. Where it succeeds, the cursor is left at the suffix of the
/// input that is as long as what the function left in the cursor; where no
/// suffix is that long, the parser fails with kind `Function`. Where it
/// fails, the cursor is left where it was.
impl<'c, I: ?Sized + Sequence, O, E: ParserError, F> Parser<'c, I, O, E, ParserFunction> for F where
    F: Fn(&mut &'c I) -> Result<O, E>,
 {
    open spec fn ready(&self) -> bool {
        forall|cursor: &mut &'c I| call_requires(*self, (cursor,))
    }

    open spec fn outcome(&self, before: &I, res: Result<O, E>, after: &I) -> bool {
        exists|given: Result<O, E>, left: &'c I|
            {
                &&& #[trigger] runs(self, before, given, left)
                &&& match given {
                    Ok(out) => if has_tail_like(before, left) {
                        &&& res == Ok::<O, E>(out)
                        &&& is_tail_like(after, before, left)
                    } else {
                        &&& after == before
                        &&& res matches Err(err) && err.is_parser_error(
                            position(before),
                            ParserType::Function,
                        )
                    },
                    Err(inner) => {
                        &&& after == before
                        &&& res == Err::<O, E>(inner)
                    },
                }
            }
    }

    fn fab(&self, input: &mut &'c I) -> (res: Result<O, E>) {
        let checkpoint = *input;
        let (given, moved) = run_function(self, checkpoint);
        assert(runs(self, checkpoint, given, moved));
        match given {
            Ok(out) => {
                let whole = checkpoint.len();
                let left = moved.len();
                if left > whole {
                    proof {
                        assert forall|k: int| 0 <= k <= checkpoint.items().len() implies I::extent(
                            #[trigger] checkpoint.items().skip(k),
                        ) != left by {
                            lemma_extent_split::<I>(checkpoint.items(), k);
                        }
                    }
                    return Err(E::from_parser_error(checkpoint, ParserType::Function));
                }
                match checkpoint.try_split_at(whole - left) {
                    Some((read, rest)) => {
                        proof {
                            lemma_tail_is_suffix(read.items(), rest.items());
                            I::extent_of_concat(read.items(), rest.items());
                            let k = read.items().len() as int;
                            assert(checkpoint.items().skip(k) =~= rest.items());
                        }
                        *input = rest;
                        Ok(out)
                    },
                    None => {
                        proof {
                            assert forall|k: int|
                                0 <= k <= checkpoint.items().len() implies I::extent(
                                #[trigger] checkpoint.items().skip(k),
                            ) != left by {
                                lemma_extent_split::<I>(checkpoint.items(), k);
                            }
                        }
                        Err(E::from_parser_error(checkpoint, ParserType::Function))
                    },
                }
            },
            Err(err) => Err(err),
        }
    }
}

/// Two first parts of one sequence with one length are the same part.
pub proof fn lemma_same_head<I: ?Sized + Sequence>(
    whole: Seq<I::Item>,
    head: Seq<I::Item>,
    tail: Seq<I::Item>,
)
    requires
        head + tail == whole,
    ensures
        forall|other: Seq<I::Item>, rest: Seq<I::Item>|
            #![trigger other + rest]
            other + rest == whole && I::extent(other) == I::extent(head) ==> other == head,
{
    assert forall|other: Seq<I::Item>, rest: Seq<I::Item>|
        #![trigger other + rest]
        other + rest == whole && I::extent(other) == I::extent(head) implies other == head by {
        let j = head.len() as int;
        let k = other.len() as int;
        assert(head =~= whole.take(j));
        assert(other =~= whole.take(k));
        if j < k {
            crate::sequence::lemma_extent_grows::<I>(whole, j, k);
        } else if k < j {
            crate::sequence::lemma_extent_grows::<I>(whole, k, j);
        }
    }
}

/// Where no prefix of a sequence has the length `mid`, no first part of
/// it has.
pub proof fn lemma_no_head<I: ?Sized + Sequence>(whole: Seq<I::Item>, mid: int)
    requires
        forall|k: int| 0 <= k <= whole.len() ==> #[trigger] I::extent(whole.take(k)) != mid,
    ensures
        forall|head: Seq<I::Item>, tail: Seq<I::Item>|
            #![trigger head + tail]
            head + tail == whole ==> I::extent(head) != mid,
{
    assert forall|head: Seq<I::Item>, tail: Seq<I::Item>|
        #![trigger head + tail]
        head + tail == whole implies I::extent(head) != mid by {
        assert(head =~= whole.take(head.len() as int));
    }
}

} // verus!
