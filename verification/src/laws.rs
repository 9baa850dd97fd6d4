//! What holds of the parsers beyond what each of them promises.

use crate::branch::{chosen, Alt, Alt2, Furthest};
use crate::error::{position, Cause, ParserError};
use crate::repeat::{
    falls_short, finishes, is_refused, rounds, stalls, Repeat, RepeatParser, TryReducer,
    VecReducer,
};
use crate::permutation::scan2;
use crate::sequence::Sequence;
use crate::combinator::{
    Opt, ParserMap, ParserMapT, TakeNot, TakeNotParser, Value, ValueParser,
};
use crate::tag::{handed_out, FnBoolSeqParser, ItemSeqParser, Take};
use crate::tuple::Seq2;
use crate::{Parser, ParserType};
use std::convert::Infallible;
use vstd::prelude::*;

verus! {

/// `first` and `second` succeed on no common cursor.
pub open spec fn never_both<'a, I, E, O1, P1, T1, O2, P2, T2>(first: &P1, second: &P2) -> bool where
    I: ?Sized + Sequence,
    E: ParserError,
    P1: Parser<'a, I, O1, E, T1>,
    P2: Parser<'a, I, O2, E, T2>,
 {
    forall|cur: &I, o1: O1, n1: &I, o2: O2, n2: &I|
        !(#[trigger] first.outcome(cur, Ok(o1), n1) && #[trigger] second.outcome(cur, Ok(o2), n2))
}

/// `parser` comes to a result on `cur`, and leaves the cursor there where
/// the result is an error.
pub open spec fn decides_at<'a, I, E, O, P, T>(parser: &P, cur: &I) -> bool where
    I: ?Sized + Sequence,
    E: ParserError,
    P: Parser<'a, I, O, E, T>,
 {
    exists|res: Result<O, E>, next: &I|
        #[trigger] parser.outcome(cur, res, next) && (res is Err ==> next == cur)
}

/// `parser` comes to a result on every cursor.
pub open spec fn always_decides<'a, I, E, O, P, T>(parser: &P) -> bool where
    I: ?Sized + Sequence,
    E: ParserError,
    P: Parser<'a, I, O, E, T>,
 {
    forall|cur: &I| #[trigger] decides_at::<I, E, O, P, T>(parser, cur)
}

/// Order of two parsers. Where two parsers succeed on no common cursor
/// and each comes to a result on every cursor, the permutation of the two
/// and the permutation of the two in the other order succeed on the same
/// inputs, with the same values, each in the order of its tuple, and leave
/// the same cursor; and they fail on the same inputs.
pub proof fn lemma_permutation_order<'a, I, E, O1, P1, T1, O2, P2, T2>(
    parsers: &(P1, P2),
    swapped: &(P2, P1),
    before: &I,
    res: Result<(O1, O2), E>,
    after: &I,
) where
    I: ?Sized + Sequence,
    E: ParserError,
    P1: Parser<'a, I, O1, E, T1>,
    P2: Parser<'a, I, O2, E, T2>,

    requires
        swapped.0 == parsers.1,
        swapped.1 == parsers.0,
        never_both::<I, E, O1, P1, T1, O2, P2, T2>(&parsers.0, &parsers.1),
        always_decides::<I, E, O2, P2, T2>(&parsers.1),
        scan2(parsers, before, before, (None, None), 0, Furthest::none(), res, after),
    ensures
        match res {
            Ok(outs) => scan2(
                swapped,
                before,
                before,
                (None, None),
                0,
                Furthest::none(),
                Ok((outs.1, outs.0)),
                after,
            ),
            Err(_) => exists|err: E|
                #[trigger] scan2(
                    swapped,
                    before,
                    before,
                    (None, None),
                    0,
                    Furthest::none(),
                    Err(err),
                    after,
                ),
        },
{
    reveal_with_fuel(scan2, 3);
    let none = Furthest::<E>::none();
    let first = parsers.0;
    let second = parsers.1;
    if exists|o1: O1, c1: &I|
        #[trigger] first.outcome(before, Ok(o1), c1) && scan2(
            parsers,
            before,
            c1,
            (Some(o1), None),
            0,
            none,
            res,
            after,
        ) {
        let (o1, c1) = choose|o1: O1, c1: &I|
            #[trigger] first.outcome(before, Ok(o1), c1) && scan2(
                parsers,
                before,
                c1,
                (Some(o1), None),
                0,
                none,
                res,
                after,
            );
        assert(decides_at::<I, E, O2, P2, T2>(&second, before));
        let (given, left) = choose|given: Result<O2, E>, left: &I|
            #[trigger] second.outcome(before, given, left) && (given is Err ==> left == before);
        if let Ok(o2) = given {
            assert(first.outcome(before, Ok(o1), c1) && second.outcome(before, Ok(o2), left));
        }
        let e0 = given->Err_0;
        assert(second.outcome(before, Err(e0), before));
        assert(scan2(parsers, before, c1, (Some(o1), None), 1, none, res, after));
        if exists|o2: O2, c2: &I|
            #[trigger] second.outcome(c1, Ok(o2), c2) && scan2(
                parsers,
                before,
                c2,
                (Some(o1), Some(o2)),
                0,
                none,
                res,
                after,
            ) {
            let (o2, c2) = choose|o2: O2, c2: &I|
                #[trigger] second.outcome(c1, Ok(o2), c2) && scan2(
                    parsers,
                    before,
                    c2,
                    (Some(o1), Some(o2)),
                    0,
                    none,
                    res,
                    after,
                );
            assert(after == c2 && res == Ok::<(O1, O2), E>((o1, o2)));
            let turned = Ok::<(O2, O1), E>((o2, o1));
            assert(scan2(swapped, before, c2, (Some(o2), Some(o1)), 0, none, turned, after));
            assert(scan2(swapped, before, c1, (None, Some(o1)), 0, none, turned, after));
            assert(scan2(swapped, before, before, (None, None), 1, none.noted(e0), turned, after));
            assert(scan2(swapped, before, before, (None, None), 0, none, turned, after));
        } else {
            let e2 = choose|e2: E|
                #[trigger] second.outcome(c1, Err(e2), c1) && scan2(
                    parsers,
                    before,
                    c1,
                    (Some(o1), None),
                    2,
                    none.noted(e2),
                    res,
                    after,
                );
            assert(after == before && res is Err);
            let err = none.noted(e2).err->Some_0;
            let turned = Err::<(O2, O1), E>(err);
            assert(scan2(swapped, before, c1, (None, Some(o1)), 2, none.noted(e2), turned, after));
            assert(scan2(swapped, before, c1, (None, Some(o1)), 1, none.noted(e2), turned, after));
            assert(scan2(swapped, before, c1, (None, Some(o1)), 0, none, turned, after));
            assert(scan2(swapped, before, before, (None, None), 1, none.noted(e0), turned, after));
            assert(scan2(swapped, before, before, (None, None), 0, none, turned, after));
        }
    } else {
        let e1 = choose|e1: E|
            #[trigger] first.outcome(before, Err(e1), before) && scan2(
                parsers,
                before,
                before,
                (None, None),
                1,
                none.noted(e1),
                res,
                after,
            );
        if exists|o2: O2, c1: &I|
            #[trigger] second.outcome(before, Ok(o2), c1) && scan2(
                parsers,
                before,
                c1,
                (None, Some(o2)),
                0,
                none,
                res,
                after,
            ) {
            let (o2, c1) = choose|o2: O2, c1: &I|
                #[trigger] second.outcome(before, Ok(o2), c1) && scan2(
                    parsers,
                    before,
                    c1,
                    (None, Some(o2)),
                    0,
                    none,
                    res,
                    after,
                );
            if exists|o1: O1, c2: &I|
                #[trigger] first.outcome(c1, Ok(o1), c2) && scan2(
                    parsers,
                    before,
                    c2,
                    (Some(o1), Some(o2)),
                    0,
                    none,
                    res,
                    after,
                ) {
                let (o1, c2) = choose|o1: O1, c2: &I|
                    #[trigger] first.outcome(c1, Ok(o1), c2) && scan2(
                        parsers,
                        before,
                        c2,
                        (Some(o1), Some(o2)),
                        0,
                        none,
                        res,
                        after,
                    );
                assert(after == c2 && res == Ok::<(O1, O2), E>((o1, o2)));
                let turned = Ok::<(O2, O1), E>((o2, o1));
                assert(scan2(swapped, before, c2, (Some(o2), Some(o1)), 0, none, turned, after));
                assert(scan2(swapped, before, c1, (Some(o2), None), 1, none, turned, after));
                assert(scan2(swapped, before, c1, (Some(o2), None), 0, none, turned, after));
                assert(scan2(swapped, before, before, (None, None), 0, none, turned, after));
            } else {
                let e3 = choose|e3: E|
                    #[trigger] first.outcome(c1, Err(e3), c1) && scan2(
                        parsers,
                        before,
                        c1,
                        (None, Some(o2)),
                        1,
                        none.noted(e3),
                        res,
                        after,
                    );
                assert(after == before && res is Err);
                let err = none.noted(e3).err->Some_0;
                let turned = Err::<(O2, O1), E>(err);
                assert(scan2(
                    swapped,
                    before,
                    c1,
                    (Some(o2), None),
                    2,
                    none.noted(e3),
                    turned,
                    after,
                ));
                assert(scan2(swapped, before, c1, (Some(o2), None), 1, none, turned, after));
                assert(scan2(swapped, before, c1, (Some(o2), None), 0, none, turned, after));
                assert(scan2(swapped, before, before, (None, None), 0, none, turned, after));
            }
        } else {
            let e2 = choose|e2: E|
                #[trigger] second.outcome(before, Err(e2), before) && scan2(
                    parsers,
                    before,
                    before,
                    (None, None),
                    2,
                    none.noted(e1).noted(e2),
                    res,
                    after,
                );
            assert(after == before && res is Err);
            let best = none.noted(e2).noted(e1);
            let err = best.err->Some_0;
            let turned = Err::<(O2, O1), E>(err);
            assert(scan2(swapped, before, before, (None, None), 2, best, turned, after));
            assert(scan2(swapped, before, before, (None, None), 1, none.noted(e2), turned, after));
            assert(scan2(swapped, before, before, (None, None), 0, none, turned, after));
        }
    }
}

/// Two results are the same, as far as `same_out` tells values apart and
/// `same_err` errors.
pub open spec fn same_result<O, E>(
    r1: Result<O, E>,
    r2: Result<O, E>,
    same_out: spec_fn(O, O) -> bool,
    same_err: spec_fn(E, E) -> bool,
) -> bool {
    match (r1, r2) {
        (Ok(o1), Ok(o2)) => same_out(o1, o2),
        (Err(e1), Err(e2)) => same_err(e1, e2),
        _ => false,
    }
}

/// What `parser` returns, and what it leaves in the cursor, depends on
/// the items in the cursor alone: run on two cursors with the same items,
/// it comes to the same result and leaves the same items.
pub open spec fn is_function<'a, I, O, E, T, P>(
    parser: &P,
    same_out: spec_fn(O, O) -> bool,
    same_err: spec_fn(E, E) -> bool,
) -> bool where I: ?Sized + Sequence, E: ParserError, P: Parser<'a, I, O, E, T> {
    forall|b1: &I, r1: Result<O, E>, a1: &I, b2: &I, r2: Result<O, E>, a2: &I|
        #![trigger parser.outcome(b1, r1, a1), parser.outcome(b2, r2, a2)]
        b1.items() == b2.items() && parser.outcome(b1, r1, a1) && parser.outcome(b2, r2, a2) ==> {
            &&& a1.items() == a2.items()
            &&& same_result(r1, r2, same_out, same_err)
        }
}

/// A clone of a `T` is equal to what it was cloned from.
pub open spec fn clones_are_equal<T: Clone>() -> bool {
    forall|a: T, b: T| #[trigger] cloned(a, b) ==> a == b
}

/// `==` on `T` gives one answer for two values.
pub open spec fn eq_is_function<T: PartialEq>() -> bool {
    forall|a: T, b: T, r1: bool, r2: bool|
        #![trigger call_ensures(T::eq, (&a, &b), r1), call_ensures(T::eq, (&a, &b), r2)]
        call_ensures(T::eq, (&a, &b), r1) && call_ensures(T::eq, (&a, &b), r2) ==> r1 == r2
}

/// `same_err` holds of two errors that a parser of one kind reports by
/// itself at one place.
pub open spec fn joins_parser_errors<E: ParserError>(same_err: spec_fn(E, E) -> bool) -> bool {
    forall|e1: E, e2: E, at: usize, kind: ParserType|
        #![trigger e1.is_parser_error(at, kind), e2.is_parser_error(at, kind)]
        e1.is_parser_error(at, kind) && e2.is_parser_error(at, kind) ==> same_err(e1, e2)
}

/// Determinism of an item. Where clones of items are equal and `==` on
/// items gives one answer, an item as a parser comes to one result on one
/// input.
pub proof fn lemma_item_is_function<'a, Item: PartialEq + Clone, I, E>(
    item: &Item,
    same_err: spec_fn(E, E) -> bool,
) where I: ?Sized + Sequence<Item = Item>, E: ParserError
    requires
        clones_are_equal::<Item>(),
        eq_is_function::<Item>(),
        joins_parser_errors(same_err),
    ensures
        is_function::<I, Item, E, ItemSeqParser, Item>(item, |a: Item, b: Item| a == b, same_err),
{
    let same_out = |a: Item, b: Item| a == b;
    assert forall|b1: &I, r1: Result<Item, E>, a1: &I, b2: &I, r2: Result<Item, E>, a2: &I|
        #![trigger
            <Item as Parser<'a, I, Item, E, ItemSeqParser>>::outcome(item, b1, r1, a1),
            <Item as Parser<'a, I, Item, E, ItemSeqParser>>::outcome(item, b2, r2, a2)
        ]
        b1.items() == b2.items() && <Item as Parser<'a, I, Item, E, ItemSeqParser>>::outcome(
            item,
            b1,
            r1,
            a1,
        ) && <Item as Parser<'a, I, Item, E, ItemSeqParser>>::outcome(item, b2, r2, a2) implies {
        &&& a1.items() == a2.items()
        &&& same_result(r1, r2, same_out, same_err)
    } by {
        let front = b1.items()[0];
        match (r1, r2) {
            (Ok(o1), Ok(o2)) => {
                assert(cloned(front, o1) && cloned(front, o2));
            },
            (Err(e1), Err(e2)) => {},
            (Ok(o1), Err(e2)) => {
                assert(cloned(front, o1));
                let other = choose|other: Item|
                    cloned(front, other) && #[trigger] call_ensures(
                        Item::eq,
                        (&other, item),
                        false,
                    );
                assert(call_ensures(Item::eq, (&o1, item), true));
            },
            (Err(e1), Ok(o2)) => {
                assert(cloned(front, o2));
                let other = choose|other: Item|
                    cloned(front, other) && #[trigger] call_ensures(
                        Item::eq,
                        (&other, item),
                        false,
                    );
                assert(call_ensures(Item::eq, (&o2, item), true));
            },
        }
    }
}

/// Determinism of `take`. It returns the same items and leaves the same
/// items on one input.
pub proof fn lemma_take_is_function<'a, I, E>(take: &Take, same_err: spec_fn(E, E) -> bool) where
    I: ?Sized + Sequence,
    E: ParserError,

    requires
        joins_parser_errors(same_err),
    ensures
        is_function::<I, &'a I, E, Take, Take>(
            take,
            |a: &'a I, b: &'a I| a.items() == b.items(),
            same_err,
        ),
{
}

/// Two options are the same: both `None`, or both values that
/// `same_out` joins.
pub open spec fn same_option<O>(same_out: spec_fn(O, O) -> bool) -> spec_fn(
    Option<O>,
    Option<O>,
) -> bool {
    |a: Option<O>, b: Option<O>|
        match (a, b) {
            (Some(x), Some(y)) => same_out(x, y),
            (None, None) => true,
            _ => false,
        }
}

/// Determinism of `opt`. Where the inner parser comes to one result on
/// one input, so does the optional one.
pub proof fn lemma_opt_is_function<'a, I, O, E, T, P>(
    made: &Opt<P>,
    same_out: spec_fn(O, O) -> bool,
    same_err: spec_fn(E, E) -> bool,
) where I: ?Sized + Sequence, E: ParserError, P: Parser<'a, I, O, E, T>
    requires
        is_function::<I, O, E, T, P>(&made.parser, same_out, same_err),
    ensures
        is_function::<I, Option<O>, E, Opt<T>, Opt<P>>(made, same_option(same_out), same_err),
{
    let inner = made.parser;
    assert forall|b1: &I, r1: Result<Option<O>, E>, a1: &I, b2: &I, r2: Result<Option<O>, E>, a2: &I|
        #![trigger made.outcome(b1, r1, a1), made.outcome(b2, r2, a2)]
        b1.items() == b2.items() && made.outcome(b1, r1, a1) && made.outcome(b2, r2, a2) implies {
        &&& a1.items() == a2.items()
        &&& same_result(r1, r2, same_option(same_out), same_err)
    } by {
        let given1: Result<O, E> = match r1 {
            Ok(Some(o1)) => Ok(o1),
            _ => Err(choose|e: E| #[trigger] inner.outcome(b1, Err(e), b1)),
        };
        let given2: Result<O, E> = match r2 {
            Ok(Some(o2)) => Ok(o2),
            _ => Err(choose|e: E| #[trigger] inner.outcome(b2, Err(e), b2)),
        };
        assert(inner.outcome(b1, given1, a1));
        assert(inner.outcome(b2, given2, a2));
    }
}

/// Determinism of `fab_map`. Where the inner parser comes to one result
/// on one input, and the function gives values that `mapped` joins for
/// values that `same_out` joins, the mapping parser comes to one result on
/// one input.
pub proof fn lemma_map_is_function<'a, I, M, O, E, T, P, F>(
    made: &ParserMap<P, I, M, E, F>,
    same_out: spec_fn(M, M) -> bool,
    mapped: spec_fn(O, O) -> bool,
    same_err: spec_fn(E, E) -> bool,
) where I: ?Sized + Sequence, E: ParserError, P: Parser<'a, I, M, E, T>, F: Fn(M) -> O
    requires
        is_function::<I, M, E, T, P>(&made.parser, same_out, same_err),
        forall|m1: M, m2: M, o1: O, o2: O|
            #![trigger call_ensures(made.func, (m1,), o1), call_ensures(made.func, (m2,), o2)]
            same_out(m1, m2) && call_ensures(made.func, (m1,), o1) && call_ensures(
                made.func,
                (m2,),
                o2,
            ) ==> mapped(o1, o2),
    ensures
        is_function::<I, O, E, ParserMapT<T, M>, ParserMap<P, I, M, E, F>>(made, mapped, same_err),
{
    let inner = made.parser;
    assert forall|b1: &I, r1: Result<O, E>, a1: &I, b2: &I, r2: Result<O, E>, a2: &I|
        #![trigger made.outcome(b1, r1, a1), made.outcome(b2, r2, a2)]
        b1.items() == b2.items() && made.outcome(b1, r1, a1) && made.outcome(b2, r2, a2) implies {
        &&& a1.items() == a2.items()
        &&& same_result(r1, r2, mapped, same_err)
    } by {
        let given1: Result<M, E> = match r1 {
            Ok(o1) => Ok(
                choose|mid: M|
                    #![trigger inner.outcome(b1, Ok(mid), a1)]
                    inner.outcome(b1, Ok(mid), a1) && call_ensures(made.func, (mid,), o1),
            ),
            Err(e1) => Err(e1),
        };
        let given2: Result<M, E> = match r2 {
            Ok(o2) => Ok(
                choose|mid: M|
                    #![trigger inner.outcome(b2, Ok(mid), a2)]
                    inner.outcome(b2, Ok(mid), a2) && call_ensures(made.func, (mid,), o2),
            ),
            Err(e2) => Err(e2),
        };
        assert(inner.outcome(b1, given1, a1));
        assert(inner.outcome(b2, given2, a2));
    }
}

/// Two pairs are the same: their first parts and their second parts are.
pub open spec fn same_pair<O1, O2>(
    first: spec_fn(O1, O1) -> bool,
    second: spec_fn(O2, O2) -> bool,
) -> spec_fn((O1, O2), (O1, O2)) -> bool {
    |a: (O1, O2), b: (O1, O2)| first(a.0, b.0) && second(a.1, b.1)
}

/// Determinism of a pair. Where each of two parsers comes to one result
/// on one input, so do the two in turn.
pub proof fn lemma_pair_is_function<'a, I, E, O1, P1, T1, O2, P2, T2>(
    pair: &(P1, P2),
    first: spec_fn(O1, O1) -> bool,
    second: spec_fn(O2, O2) -> bool,
    same_err: spec_fn(E, E) -> bool,
) where
    I: ?Sized + Sequence,
    E: ParserError,
    P1: Parser<'a, I, O1, E, T1>,
    P2: Parser<'a, I, O2, E, T2>,

    requires
        is_function::<I, O1, E, T1, P1>(&pair.0, first, same_err),
        is_function::<I, O2, E, T2, P2>(&pair.1, second, same_err),
    ensures
        is_function::<I, (O1, O2), E, Seq2<T1, T2>, (P1, P2)>(
            pair,
            same_pair(first, second),
            same_err,
        ),
{
    let p1 = pair.0;
    let p2 = pair.1;
    assert forall|
        b1: &'a I,
        r1: Result<(O1, O2), E>,
        a1: &'a I,
        b2: &'a I,
        r2: Result<(O1, O2), E>,
        a2: &'a I,
    |
        #![trigger pair.outcome(b1, r1, a1), pair.outcome(b2, r2, a2)]
        b1.items() == b2.items() && pair.outcome(b1, r1, a1) && pair.outcome(b2, r2, a2) implies {
        &&& a1.items() == a2.items()
        &&& same_result(r1, r2, same_pair(first, second), same_err)
    } by {
        let (x1, m1, y1) = lemma_pair_steps(pair, b1, r1, a1);
        let (x2, m2, y2) = lemma_pair_steps(pair, b2, r2, a2);
        assert(p1.outcome(b1, x1, m1) && p1.outcome(b2, x2, m2));
        if x1 is Ok {
            let y1 = y1->Some_0;
            let y2 = y2->Some_0;
            let l1 = if y1 is Ok {
                a1
            } else {
                m1
            };
            let l2 = if y2 is Ok {
                a2
            } else {
                m2
            };
            assert(p2.outcome(m1, y1, l1) && p2.outcome(m2, y2, l2));
        }
        if let (Ok(o1), Ok(o2)) = (r1, r2) {
            assert(first(o1.0, o2.0) && second(o1.1, o2.1));
        }
    }
}

/// The steps of a pair that comes to `res`: what the first parser came
/// to, and what the second came to, where it ran.
pub proof fn lemma_pair_steps<'a, I, E, O1, P1, T1, O2, P2, T2>(
    pair: &(P1, P2),
    before: &'a I,
    res: Result<(O1, O2), E>,
    after: &'a I,
) -> (steps: (Result<O1, E>, &'a I, Option<Result<O2, E>>)) where
    I: ?Sized + Sequence,
    E: ParserError,
    P1: Parser<'a, I, O1, E, T1>,
    P2: Parser<'a, I, O2, E, T2>,

    requires
        pair.outcome(before, res, after),
    ensures
        pair.0.outcome(before, steps.0, steps.1),
        steps.0 is Ok <==> steps.2 is Some,
        steps.2 matches Some(second) ==> pair.1.outcome(
            steps.1,
            second,
            if second is Ok {
                after
            } else {
                steps.1
            },
        ),
        res matches Ok(outs) ==> steps.0 == Ok::<O1, E>(outs.0) && steps.2 == Some(
            Ok::<O2, E>(outs.1),
        ),
        res matches Err(err) ==> after == before && match steps.2 {
            Some(second) => second == Err::<O2, E>(err),
            None => steps.0 == Err::<O1, E>(err) && steps.1 == before,
        },
{
    match res {
        Ok(outs) => {
            let (o1, c1) = choose|o1: O1, c1: &'a I|
                {
                    &&& #[trigger] pair.0.outcome(before, Ok(o1), c1)
                    &&& outs.0 == o1
                    &&& exists|o2: O2|
                        {
                            &&& #[trigger] pair.1.outcome(c1, Ok(o2), after)
                            &&& outs.1 == o2
                        }
                };
            let o2 = choose|o2: O2| #[trigger] pair.1.outcome(c1, Ok(o2), after) && outs.1 == o2;
            (Ok(o1), c1, Some(Ok(o2)))
        },
        Err(err) => {
            if pair.0.outcome(before, Err(err), before) {
                (Err(err), before, None)
            } else {
                let (o1, c1) = choose|o1: O1, c1: &'a I|
                    {
                        &&& #[trigger] pair.0.outcome(before, Ok(o1), c1)
                        &&& pair.1.outcome(c1, Err(err), c1)
                    };
                (Ok(o1), c1, Some(Err(err)))
            }
        },
    }
}

/// `same_err` joins only errors with one location.
pub open spec fn keeps_location<E: ParserError>(same_err: spec_fn(E, E) -> bool) -> bool {
    forall|e1: E, e2: E| #[trigger] same_err(e1, e2) ==> e1.location() == e2.location()
}

/// Of two runs of errors that are the same one by one, the same error is
/// chosen.
pub proof fn lemma_chosen_alike<E: ParserError>(
    errs1: Seq<E>,
    errs2: Seq<E>,
    same_err: spec_fn(E, E) -> bool,
)
    requires
        keeps_location(same_err),
        errs1.len() == errs2.len(),
        forall|i: int| 0 <= i < errs1.len() ==> same_err(#[trigger] errs1[i], errs2[i]),
    ensures
        chosen(errs1).loc == chosen(errs2).loc,
        match (chosen(errs1).err, chosen(errs2).err) {
            (Some(e1), Some(e2)) => same_err(e1, e2),
            (None, None) => true,
            _ => false,
        },
    decreases errs1.len(),
{
    if errs1.len() > 0 {
        let init1 = errs1.drop_last();
        let init2 = errs2.drop_last();
        assert forall|i: int| 0 <= i < init1.len() implies same_err(#[trigger] init1[i], init2[i]) by {
            assert(same_err(errs1[i], errs2[i]));
        }
        lemma_chosen_alike(init1, init2, same_err);
        assert(same_err(errs1[errs1.len() - 1], errs2[errs2.len() - 1]));
    }
}

/// Determinism of an alternation of two. Where each of two parsers comes
/// to one result on one input, and the errors that are taken for the same
/// have one location, the alternation of the two comes to one result on
/// one input.
pub proof fn lemma_alt_is_function<'a, I, O, E, P1, T1, P2, T2>(
    made: &Alt<(P1, P2)>,
    same_out: spec_fn(O, O) -> bool,
    same_err: spec_fn(E, E) -> bool,
) where
    I: ?Sized + Sequence,
    E: ParserError,
    P1: Parser<'a, I, O, E, T1>,
    P2: Parser<'a, I, O, E, T2>,

    requires
        keeps_location(same_err),
        is_function::<I, O, E, T1, P1>(&made.0.0, same_out, same_err),
        is_function::<I, O, E, T2, P2>(&made.0.1, same_out, same_err),
    ensures
        is_function::<I, O, E, Alt2<T1, T2>, Alt<(P1, P2)>>(made, same_out, same_err),
{
    let p1 = made.0.0;
    let p2 = made.0.1;
    assert forall|b1: &'a I, r1: Result<O, E>, a1: &'a I, b2: &'a I, r2: Result<O, E>, a2: &'a I|
        #![trigger made.outcome(b1, r1, a1), made.outcome(b2, r2, a2)]
        b1.items() == b2.items() && made.outcome(b1, r1, a1) && made.outcome(b2, r2, a2) implies {
        &&& a1.items() == a2.items()
        &&& same_result(r1, r2, same_out, same_err)
    } by {
        let (x1, y1, errs1) = lemma_alt_steps(made, b1, r1, a1);
        let (x2, y2, errs2) = lemma_alt_steps(made, b2, r2, a2);
        let l1 = if x1 is Ok {
            a1
        } else {
            b1
        };
        let l2 = if x2 is Ok {
            a2
        } else {
            b2
        };
        assert(p1.outcome(b1, x1, l1) && p1.outcome(b2, x2, l2));
        if x1 is Err {
            let y1 = y1->Some_0;
            let y2 = y2->Some_0;
            let k1 = if y1 is Ok {
                a1
            } else {
                b1
            };
            let k2 = if y2 is Ok {
                a2
            } else {
                b2
            };
            assert(p2.outcome(b1, y1, k1) && p2.outcome(b2, y2, k2));
            if y1 is Err {
                lemma_chosen_alike(errs1, errs2, same_err);
            }
        }
    }
}

/// The steps of an alternation of two that comes to `res`: what the
/// first parser came to, what the second came to, where it ran, and the
/// errors of the two, where both failed.
pub proof fn lemma_alt_steps<'a, I, O, E, P1, T1, P2, T2>(
    made: &Alt<(P1, P2)>,
    before: &'a I,
    res: Result<O, E>,
    after: &'a I,
) -> (steps: (Result<O, E>, Option<Result<O, E>>, Seq<E>)) where
    I: ?Sized + Sequence,
    E: ParserError,
    P1: Parser<'a, I, O, E, T1>,
    P2: Parser<'a, I, O, E, T2>,

    requires
        made.outcome(before, res, after),
    ensures
        made.0.0.outcome(
            before,
            steps.0,
            if steps.0 is Ok {
                after
            } else {
                before
            },
        ),
        steps.0 is Err <==> steps.1 is Some,
        steps.0 is Ok ==> res == steps.0,
        steps.1 matches Some(second) ==> made.0.1.outcome(
            before,
            second,
            if second is Ok {
                after
            } else {
                before
            },
        ),
        steps.1 matches Some(Ok(out)) ==> res == Ok::<O, E>(out),
        steps.1 matches Some(Err(err)) ==> {
            &&& after == before
            &&& steps.2 == seq![steps.0->Err_0, err]
            &&& res matches Err(taken) && chosen(steps.2).err == Some(taken)
        },
{
    match res {
        Ok(out) => {
            if made.0.0.outcome(before, Ok(out), after) {
                (Ok(out), None, Seq::empty())
            } else {
                let err = choose|err: E| #[trigger] made.0.0.outcome(before, Err(err), before);
                (Err(err), Some(Ok(out)), Seq::empty())
            }
        },
        Err(taken) => {
            let errs = choose|errs: Seq<E>|
                {
                    &&& #[trigger] chosen(errs).err == Some(taken)
                    &&& errs.len() == 2
                    &&& made.0.0.outcome(before, Err(errs[0]), before)
                    &&& made.0.1.outcome(before, Err(errs[1]), before)
                };
            assert(errs =~= seq![errs[0], errs[1]]);
            (Err(errs[0]), Some(Err(errs[1])), errs)
        },
    }
}

/// `same_err` holds of two errors that are errors that it joins, each
/// seen from a parser of one kind at one place.
pub open spec fn joins_extended<E: ParserError>(same_err: spec_fn(E, E) -> bool) -> bool {
    forall|e1: E, i1: E, e2: E, i2: E, at: usize, kind: ParserType|
        #![trigger e1.extends(&i1, at, kind), e2.extends(&i2, at, kind)]
        same_err(i1, i2) && e1.extends(&i1, at, kind) && e2.extends(&i2, at, kind) ==> same_err(
            e1,
            e2,
        )
}

/// The fold never fails, and what it leaves and what the reducer returns
/// at the end depend on what they are given alone, as far as `same_out`
/// tells values apart, `same_acc` accumulators and `same_final` what is
/// returned.
pub open spec fn fold_is_function<'a, I, O, F, Acc, FErr, ReducerOut, AccOut>(
    fold: &F,
    same_out: spec_fn(O, O) -> bool,
    same_acc: spec_fn(Acc, Acc) -> bool,
    same_final: spec_fn(AccOut, AccOut) -> bool,
) -> bool where I: ?Sized + Sequence, F: TryReducer<'a, Acc, O, ReducerOut, FErr, AccOut, I> {
    &&& forall|acc: Acc, val: O, step: Result<(), FErr>, folded: Acc| #[trigger]
        fold.reduces(acc, val, step, folded) ==> step is Ok
    &&& forall|
        acc1: Acc,
        val1: O,
        step1: Result<(), FErr>,
        folded1: Acc,
        acc2: Acc,
        val2: O,
        step2: Result<(), FErr>,
        folded2: Acc,
    |
        #![trigger fold.reduces(acc1, val1, step1, folded1), fold.reduces(acc2, val2, step2, folded2)]
        same_acc(acc1, acc2) && same_out(val1, val2) && fold.reduces(acc1, val1, step1, folded1)
            && fold.reduces(acc2, val2, step2, folded2) ==> same_acc(folded1, folded2)
    &&& forall|
        acc1: Acc,
        start1: &I,
        cur1: &I,
        out1: AccOut,
        acc2: Acc,
        start2: &I,
        cur2: &I,
        out2: AccOut,
    |
        #![trigger fold.finalizes(acc1, start1, cur1, out1), fold.finalizes(acc2, start2, cur2, out2)]
        same_acc(acc1, acc2) && start1.items() == start2.items() && cur1.items() == cur2.items()
            && fold.finalizes(acc1, start1, cur1, out1) && fold.finalizes(acc2, start2, cur2, out2)
            ==> same_final(out1, out2)
}

/// The next step of a repetition that has not made all its repetitions
/// and whose fold never fails: what the parser came to, where it left the
/// cursor, and what the fold left.
pub proof fn lemma_round_step<'a, P, I, O, E, PType, F, Acc, FErr, ReducerOut, AccOut>(
    parser: &P,
    fold: &F,
    lower: usize,
    upper: usize,
    start: &'a I,
    reps: nat,
    cur: &'a I,
    acc: Acc,
    res: Result<AccOut, E>,
    after: &'a I,
) -> (step: (Result<O, E>, &'a I, Acc)) where
    E: ParserError,
    I: ?Sized + Sequence,
    P: Parser<'a, I, O, E, PType>,
    FErr: Cause,
    F: TryReducer<'a, Acc, O, ReducerOut, FErr, AccOut, I>,

    requires
        reps + 1 < upper,
        forall|acc: Acc, val: O, step: Result<(), FErr>, folded: Acc| #[trigger]
            fold.reduces(acc, val, step, folded) ==> step is Ok,
        rounds(parser, fold, lower, upper, start, reps, cur, acc, res, after),
    ensures
        parser.outcome(cur, step.0, step.1),
        match step.0 {
            Err(_) => step.1 == cur && if lower <= reps {
                finishes(fold, start, cur, acc, res, after)
            } else {
                falls_short(start, res, after)
            },
            Ok(val) => if position(step.1) == position(cur) {
                stalls(start, cur, res, after)
            } else {
                &&& fold.reduces(acc, val, Ok(()), step.2)
                &&& rounds(parser, fold, lower, upper, start, reps + 1, step.1, step.2, res, after)
            },
        },
{
    let ends = if lower <= reps {
        finishes(fold, start, cur, acc, res, after)
    } else {
        falls_short(start, res, after)
    };
    if ends && exists|inner: E| #[trigger] parser.outcome(cur, Err(inner), cur) {
        let inner = choose|inner: E| #[trigger] parser.outcome(cur, Err(inner), cur);
        (Err(inner), cur, acc)
    } else {
        let (val, next) = choose|val: O, next: &'a I|
            {
                &&& #[trigger] parser.outcome(cur, Ok(val), next)
                &&& if position(next) == position(cur) {
                    stalls(start, cur, res, after)
                } else {
                    exists|step: Result<(), FErr>, folded: Acc|
                        {
                            &&& #[trigger] fold.reduces(acc, val, step, folded)
                            &&& match step {
                                Ok(_) => rounds(
                                    parser,
                                    fold,
                                    lower,
                                    upper,
                                    start,
                                    reps + 1,
                                    next,
                                    folded,
                                    res,
                                    after,
                                ),
                                Err(cause) => is_refused(start, cur, cause, res, after),
                            }
                        }
                }
            };
        if position(next) == position(cur) {
            (Ok(val), next, acc)
        } else {
            let (step, folded) = choose|step: Result<(), FErr>, folded: Acc|
                {
                    &&& #[trigger] fold.reduces(acc, val, step, folded)
                    &&& match step {
                        Ok(_) => rounds(
                            parser,
                            fold,
                            lower,
                            upper,
                            start,
                            reps + 1,
                            next,
                            folded,
                            res,
                            after,
                        ),
                        Err(cause) => is_refused(start, cur, cause, res, after),
                    }
                };
            assert(step->Ok_0 == ());
            (Ok(val), next, folded)
        }
    }
}

/// Two repetitions of one parser with one fold that stand alike come to
/// the same.
pub proof fn lemma_rounds_alike<'a, P, I, O, E, PType, F, Acc, FErr, ReducerOut, AccOut>(
    parser: &P,
    fold: &F,
    lower: usize,
    upper: usize,
    reps: nat,
    same_out: spec_fn(O, O) -> bool,
    same_acc: spec_fn(Acc, Acc) -> bool,
    same_final: spec_fn(AccOut, AccOut) -> bool,
    same_err: spec_fn(E, E) -> bool,
    one: (&'a I, &'a I, Acc, Result<AccOut, E>, &'a I),
    two: (&'a I, &'a I, Acc, Result<AccOut, E>, &'a I),
) where
    E: ParserError,
    I: ?Sized + Sequence,
    P: Parser<'a, I, O, E, PType>,
    FErr: Cause,
    F: TryReducer<'a, Acc, O, ReducerOut, FErr, AccOut, I>,

    requires
        reps < upper,
        joins_parser_errors(same_err),
        joins_extended(same_err),
        is_function::<I, O, E, PType, P>(parser, same_out, same_err),
        fold_is_function(fold, same_out, same_acc, same_final),
        one.0.items() == two.0.items(),
        one.1.items() == two.1.items(),
        same_acc(one.2, two.2),
        rounds(parser, fold, lower, upper, one.0, reps, one.1, one.2, one.3, one.4),
        rounds(parser, fold, lower, upper, two.0, reps, two.1, two.2, two.3, two.4),
    ensures
        one.4.items() == two.4.items(),
        same_result(one.3, two.3, same_final, same_err),
    decreases upper - reps,
{
    if reps + 1 < upper {
        let s1 = lemma_round_step(parser, fold, lower, upper, one.0, reps, one.1, one.2, one.3, one.4);
        let s2 = lemma_round_step(parser, fold, lower, upper, two.0, reps, two.1, two.2, two.3, two.4);
        assert(parser.outcome(one.1, s1.0, s1.1) && parser.outcome(two.1, s2.0, s2.1));
        match (s1.0, s2.0) {
            (Ok(v1), Ok(v2)) => {
                if position(s1.1) == position(one.1) {
                    let i1 = choose|inner: E|
                        {
                            &&& #[trigger] inner.is_parser_error(
                                position(one.1),
                                ParserType::RepeatIter,
                            )
                            &&& (one.3->Err_0).extends(
                                &inner,
                                position(one.0),
                                ParserType::Repeat,
                            )
                        };
                    let i2 = choose|inner: E|
                        {
                            &&& #[trigger] inner.is_parser_error(
                                position(two.1),
                                ParserType::RepeatIter,
                            )
                            &&& (two.3->Err_0).extends(
                                &inner,
                                position(two.0),
                                ParserType::Repeat,
                            )
                        };
                    assert(same_err(i1, i2));
                } else {
                    assert(fold.reduces(one.2, v1, Ok(()), s1.2) && fold.reduces(
                        two.2,
                        v2,
                        Ok(()),
                        s2.2,
                    ));
                    lemma_rounds_alike(
                        parser,
                        fold,
                        lower,
                        upper,
                        reps + 1,
                        same_out,
                        same_acc,
                        same_final,
                        same_err,
                        (one.0, s1.1, s1.2, one.3, one.4),
                        (two.0, s2.1, s2.2, two.3, two.4),
                    );
                }
            },
            _ => {
                if lower <= reps {
                    assert(fold.finalizes(one.2, one.0, one.1, one.3->Ok_0) && fold.finalizes(
                        two.2,
                        two.0,
                        two.1,
                        two.3->Ok_0,
                    ));
                }
            },
        }
    } else {
        assert(fold.finalizes(one.2, one.0, one.1, one.3->Ok_0) && fold.finalizes(
            two.2,
            two.0,
            two.1,
            two.3->Ok_0,
        ));
    }
}

/// Determinism of a repetition. Where the parser comes to one result on
/// one input, the fold never fails and leaves one accumulator for one
/// accumulator and one value, and clones of the accumulator that the
/// repetition starts from are the same, the repetition comes to one
/// result on one input.
pub proof fn lemma_repeat_is_function<'a, P, I, O, E, PType, F, Acc, FErr, ReducerOut, AccOut>(
    made: &Repeat<P, I, O, E, F, Acc>,
    same_out: spec_fn(O, O) -> bool,
    same_acc: spec_fn(Acc, Acc) -> bool,
    same_final: spec_fn(AccOut, AccOut) -> bool,
    same_err: spec_fn(E, E) -> bool,
) where
    E: ParserError,
    I: ?Sized + Sequence,
    P: Parser<'a, I, O, E, PType>,
    Acc: Clone,
    FErr: Cause,
    F: TryReducer<'a, Acc, O, ReducerOut, FErr, AccOut, I>,

    requires
        joins_parser_errors(same_err),
        joins_extended(same_err),
        is_function::<I, O, E, PType, P>(&made.inner(), same_out, same_err),
        fold_is_function(&made.fold().reduce_operator, same_out, same_acc, same_final),
        forall|a1: Acc, a2: Acc|
            #![trigger cloned(made.fold().acc, a1), cloned(made.fold().acc, a2)]
            cloned(made.fold().acc, a1) && cloned(made.fold().acc, a2) ==> same_acc(a1, a2),
    ensures
        is_function::<I, AccOut, E, RepeatParser<PType, ReducerOut, FErr>, Repeat<P, I, O, E, F, Acc>>(
            made,
            same_final,
            same_err,
        ),
{
    assert forall|
        b1: &'a I,
        r1: Result<AccOut, E>,
        a1: &'a I,
        b2: &'a I,
        r2: Result<AccOut, E>,
        a2: &'a I,
    |
        #![trigger
            <Repeat<P, I, O, E, F, Acc> as Parser<'a, I, AccOut, E, RepeatParser<PType, ReducerOut, FErr>>>::outcome(made, b1, r1, a1),
            <Repeat<P, I, O, E, F, Acc> as Parser<'a, I, AccOut, E, RepeatParser<PType, ReducerOut, FErr>>>::outcome(made, b2, r2, a2)
        ]
        b1.items() == b2.items() && <Repeat<P, I, O, E, F, Acc> as Parser<
            'a,
            I,
            AccOut,
            E,
            RepeatParser<PType, ReducerOut, FErr>,
        >>::outcome(made, b1, r1, a1) && <Repeat<P, I, O, E, F, Acc> as Parser<
            'a,
            I,
            AccOut,
            E,
            RepeatParser<PType, ReducerOut, FErr>,
        >>::outcome(made, b2, r2, a2) implies {
        &&& a1.items() == a2.items()
        &&& same_result(r1, r2, same_final, same_err)
    } by {
        if made.lower() < made.upper() {
            let acc1 = choose|acc: Acc|
                {
                    &&& cloned(made.fold().acc, acc)
                    &&& #[trigger] made.comes_to::<PType, FErr, ReducerOut, AccOut>(
                        b1,
                        0,
                        b1,
                        acc,
                        r1,
                        a1,
                    )
                };
            let acc2 = choose|acc: Acc|
                {
                    &&& cloned(made.fold().acc, acc)
                    &&& #[trigger] made.comes_to::<PType, FErr, ReducerOut, AccOut>(
                        b2,
                        0,
                        b2,
                        acc,
                        r2,
                        a2,
                    )
                };
            lemma_rounds_alike(
                &made.inner(),
                &made.fold().reduce_operator,
                made.lower(),
                made.upper(),
                0,
                same_out,
                same_acc,
                same_final,
                same_err,
                (b1, b1, acc1, r1, a1),
                (b2, b2, acc2, r2, a2),
            );
        }
    }
}

/// Two vectors are the same: they are as long as each other, and
/// `same_out` joins their items one by one.
pub open spec fn same_vec<O>(same_out: spec_fn(O, O) -> bool) -> spec_fn(Vec<O>, Vec<O>) -> bool {
    |a: Vec<O>, b: Vec<O>|
        a@.len() == b@.len() && forall|i: int| 0 <= i < a@.len() ==> same_out(#[trigger] a@[i], b@[i])
}

/// The fold into a vector never fails and leaves one vector for one
/// vector and one value.
pub proof fn lemma_vec_fold_is_function<'a, I: ?Sized + Sequence, O>(same_out: spec_fn(O, O) -> bool)
    ensures
        fold_is_function::<I, O, VecReducer, Vec<O>, Infallible, VecReducer, Vec<O>>(
            &VecReducer,
            same_out,
            same_vec(same_out),
            same_vec(same_out),
        ),
{
}

/// Determinism of a predicate. Where clones of items are equal and the
/// predicate gives one answer for one item, the predicate as a parser comes
/// to one result on one input.
pub proof fn lemma_predicate_is_function<'a, I, F, E, Item>(
    pred: &F,
    same_err: spec_fn(E, E) -> bool,
) where I: ?Sized + Sequence<Item = Item>, F: Fn(Item) -> bool, E: ParserError, Item: Clone
    requires
        clones_are_equal::<Item>(),
        forall|item: Item, r1: bool, r2: bool|
            #![trigger call_ensures(*pred, (item,), r1), call_ensures(*pred, (item,), r2)]
            call_ensures(*pred, (item,), r1) && call_ensures(*pred, (item,), r2) ==> r1 == r2,
        joins_parser_errors(same_err),
    ensures
        is_function::<I, Item, E, FnBoolSeqParser, F>(pred, |a: Item, b: Item| a == b, same_err),
{
    let same_out = |a: Item, b: Item| a == b;
    assert forall|b1: &I, r1: Result<Item, E>, a1: &I, b2: &I, r2: Result<Item, E>, a2: &I|
        #![trigger
            <F as Parser<'a, I, Item, E, FnBoolSeqParser>>::outcome(pred, b1, r1, a1),
            <F as Parser<'a, I, Item, E, FnBoolSeqParser>>::outcome(pred, b2, r2, a2)
        ]
        b1.items() == b2.items() && <F as Parser<'a, I, Item, E, FnBoolSeqParser>>::outcome(
            pred,
            b1,
            r1,
            a1,
        ) && <F as Parser<'a, I, Item, E, FnBoolSeqParser>>::outcome(pred, b2, r2, a2) implies {
        &&& a1.items() == a2.items()
        &&& same_result(r1, r2, same_out, same_err)
    } by {
        let front = b1.items()[0];
        if r1 is Ok || r2 is Ok {
            assert(b1.items().len() > 0);
            if let Ok(o1) = r1 {
                assert(cloned(front, o1));
                let arg = choose|arg: Item|
                    cloned(o1, arg) && #[trigger] call_ensures(*pred, (arg,), true);
                assert(arg == front);
            }
            if let Ok(o2) = r2 {
                assert(cloned(front, o2));
                let arg = choose|arg: Item|
                    cloned(o2, arg) && #[trigger] call_ensures(*pred, (arg,), true);
                assert(arg == front);
            }
            if r1 is Err {
                let arg = choose|arg: Item|
                    handed_out(b1, arg) && #[trigger] call_ensures(*pred, (arg,), false);
                assert(arg == front);
            }
            if r2 is Err {
                let arg = choose|arg: Item|
                    handed_out(b2, arg) && #[trigger] call_ensures(*pred, (arg,), false);
                assert(arg == front);
            }
        }
    }
}

/// Determinism of `fab_value`. Where the inner parser comes to one result
/// on one input, and `same_value` joins the clones of the value, the parser
/// that returns the value comes to one result on one input.
pub proof fn lemma_value_is_function<'a, I, O, E, T, P, V>(
    made: &Value<P, V, I, O, E>,
    same_out: spec_fn(O, O) -> bool,
    same_value: spec_fn(V, V) -> bool,
    same_err: spec_fn(E, E) -> bool,
) where I: ?Sized + Sequence, E: ParserError, P: Parser<'a, I, O, E, T>, V: Clone
    requires
        is_function::<I, O, E, T, P>(&made.parser, same_out, same_err),
        forall|v1: V, v2: V|
            #![trigger cloned(made.value, v1), cloned(made.value, v2)]
            cloned(made.value, v1) && cloned(made.value, v2) ==> same_value(v1, v2),
    ensures
        is_function::<I, V, E, ValueParser<T, O>, Value<P, V, I, O, E>>(made, same_value, same_err),
{
    let inner = made.parser;
    assert forall|b1: &I, r1: Result<V, E>, a1: &I, b2: &I, r2: Result<V, E>, a2: &I|
        #![trigger made.outcome(b1, r1, a1), made.outcome(b2, r2, a2)]
        b1.items() == b2.items() && made.outcome(b1, r1, a1) && made.outcome(b2, r2, a2) implies {
        &&& a1.items() == a2.items()
        &&& same_result(r1, r2, same_value, same_err)
    } by {
        let given1: Result<O, E> = match r1 {
            Ok(_) => Ok(choose|out: O| #[trigger] inner.outcome(b1, Ok(out), a1)),
            Err(e1) => Err(e1),
        };
        let given2: Result<O, E> = match r2 {
            Ok(_) => Ok(choose|out: O| #[trigger] inner.outcome(b2, Ok(out), a2)),
            Err(e2) => Err(e2),
        };
        assert(inner.outcome(b1, given1, a1));
        assert(inner.outcome(b2, given2, a2));
    }
}

/// Determinism of `take_not`. Where the inner parser comes to one result
/// on one input and clones of items are equal, the parser that reads one
/// item where the inner one fails comes to one result on one input.
pub proof fn lemma_take_not_is_function<'a, I, O, E, T, P, Item>(
    made: &TakeNot<P>,
    same_out: spec_fn(O, O) -> bool,
    same_err: spec_fn(E, E) -> bool,
) where
    I: ?Sized + Sequence<Item = Item>,
    E: ParserError,
    P: Parser<'a, I, O, E, T>,
    Item: Clone,

    requires
        is_function::<I, O, E, T, P>(&made.parser, same_out, same_err),
        clones_are_equal::<Item>(),
        joins_parser_errors(same_err),
    ensures
        is_function::<I, Item, E, TakeNotParser<T, O>, TakeNot<P>>(
            made,
            |a: Item, b: Item| a == b,
            same_err,
        ),
{
    let inner = made.parser;
    let same_item = |a: Item, b: Item| a == b;
    assert forall|b1: &'a I, r1: Result<Item, E>, a1: &'a I, b2: &'a I, r2: Result<Item, E>, a2: &'a I|
        #![trigger
            <TakeNot<P> as Parser<'a, I, Item, E, TakeNotParser<T, O>>>::outcome(made, b1, r1, a1),
            <TakeNot<P> as Parser<'a, I, Item, E, TakeNotParser<T, O>>>::outcome(made, b2, r2, a2)
        ]
        b1.items() == b2.items() && <TakeNot<P> as Parser<
            'a,
            I,
            Item,
            E,
            TakeNotParser<T, O>,
        >>::outcome(made, b1, r1, a1) && <TakeNot<P> as Parser<
            'a,
            I,
            Item,
            E,
            TakeNotParser<T, O>,
        >>::outcome(made, b2, r2, a2) implies {
        &&& a1.items() == a2.items()
        &&& same_result(r1, r2, same_item, same_err)
    } by {
        let (g1, l1) = lemma_take_not_step(made, b1, r1, a1);
        let (g2, l2) = lemma_take_not_step(made, b2, r2, a2);
        assert(inner.outcome(b1, g1, l1) && inner.outcome(b2, g2, l2));
    }
}

/// The step of a `take_not` that comes to `res`: what the inner parser
/// came to, and where it left the cursor.
pub proof fn lemma_take_not_step<'a, I, O, E, T, P, Item>(
    made: &TakeNot<P>,
    before: &'a I,
    res: Result<Item, E>,
    after: &'a I,
) -> (step: (Result<O, E>, &'a I)) where
    I: ?Sized + Sequence<Item = Item>,
    E: ParserError,
    P: Parser<'a, I, O, E, T>,

    requires
        <TakeNot<P> as Parser<'a, I, Item, E, TakeNotParser<T, O>>>::outcome(
            made,
            before,
            res,
            after,
        ),
    ensures
        made.parser.outcome(before, step.0, step.1),
        res is Ok ==> step.0 is Err,
        res is Err ==> step.0 is Ok || before.items().len() == 0,
{
    let inner = made.parser;
    if exists|out: O, moved: &'a I| #[trigger] inner.outcome(before, Ok(out), moved) {
        if res is Err {
            let (out, moved) = choose|out: O, moved: &'a I| #[trigger]
                inner.outcome(before, Ok(out), moved);
            return (Ok(out), moved);
        }
    }
    let err = choose|err: E| #[trigger] inner.outcome(before, Err(err), before);
    (Err(err), before)
}

} // verus!
