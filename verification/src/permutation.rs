//! Permutation: the parsers of a tuple, each once, in whatever order they
//! succeed in.

use crate::branch::{Furthest, Permutation};
use crate::error::ParserError;
use crate::sequence::{is_suffix, lemma_suffix_of_self, lemma_suffix_of_suffix, Sequence};
use crate::Parser;
use std::marker::PhantomData;
use vstd::prelude::*;

verus! {

/// Marks the permutation of one parser.
pub struct SeqAlt1<T1> {
    p1: PhantomData<T1>,
}

/// How many the one parser has not succeeded yet.
pub open spec fn pending1<O1>(slots: (Option<O1>,)) -> nat {
    (if slots.0 is None {
        1nat
    } else {
        0
    })
}

/// What a permutation of one parser that started at `entry` may come to,
/// when it stands at `cur` with the values of `slots`, has tried there the
/// parsers before the one at `at`, and has noted `best`.
///
/// A parser that has a value is passed over. Where one of the others
/// succeeds, its value is kept and the parsers are tried anew from where it
/// left the cursor. Where it fails, its error is noted and the next is tried.
/// With all tried, the permutation returns the values if every parser has
/// one; else it fails with the error chosen, and the cursor is at `entry`.
pub open spec fn scan1<'a, I, E, O1, P1, T1>(
    parsers: &(P1,),
    entry: &I,
    cur: &I,
    slots: (Option<O1>,),
    at: nat,
    best: Furthest<E>,
    res: Result<(O1,), E>,
    after: &I,
) -> bool where
    I: ?Sized + Sequence,
    E: ParserError,
    P1: Parser<'a, I, O1, E, T1>,

    decreases pending1(slots), 1 - at,
{
    if at == 0 {
        if slots.0 is Some {
            scan1(parsers, entry, cur, slots, 1, best, res, after)
        } else {
            ||| exists|out: O1, next: &I|
                {
                    &&& #[trigger] parsers.0.outcome(cur, Ok(out), next)
                    &&& scan1(
                        parsers,
                        entry,
                        next,
                        (Some(out),),
                        0,
                        Furthest::none(),
                        res,
                        after,
                    )
                }
            ||| exists|err: E|
                {
                    &&& #[trigger] parsers.0.outcome(cur, Err(err), cur)
                    &&& scan1(parsers, entry, cur, slots, 1, best.noted(err), res, after)
                }
        }
    } else if pending1(slots) == 0 {
        &&& after == cur
        &&& res == Ok::<(O1,), E>((slots.0.unwrap(),))
    } else {
        &&& after == entry
        &&& res matches Err(err) && best.err == Some(err)
    }
}

/// The permutation of one parser.
impl<'a, I: ?Sized + Sequence, E: ParserError, O1, P1, T1> Parser<
    'a,
    I,
    (O1,),
    E,
    SeqAlt1<T1>,
> for Permutation<(P1,)> where
    P1: Parser<'a, I, O1, E, T1>,
 {
    open spec fn ready(&self) -> bool {
        &&& self.0.0.ready()
    }

    open spec fn outcome(&self, before: &I, res: Result<(O1,), E>, after: &I) -> bool {
        scan1(&self.0, before, before, (None,), 0, Furthest::none(), res, after)
    }

    fn fab(&self, input: &mut &'a I) -> (res: Result<(O1,), E>) {
        let outer_startloc = *input;
        let mut r1: Option<O1> = None;
        proof {
            lemma_suffix_of_self(outer_startloc.items());
        }
        loop
            invariant
                self.ready(),
                outer_startloc == *old(input),
                is_suffix(input.items(), outer_startloc.items()),
                forall|res: Result<(O1,), E>, after: &I| #[trigger]
                    scan1(&self.0, outer_startloc, *input, (r1,), 0, Furthest::none(), res, after)
                        ==> self.outcome(outer_startloc, res, after),
            decreases pending1((r1,)),
        {
            let startloc = *input;
            let mut best = Furthest::new();
            let ghost slots = (r1,);
            let ghost b0 = best;
            if r1.is_none() {
                match self.0.0.fab(input) {
                    Ok(out) => {
                        proof {
                            let next = *input;
                            assert(self.0.0.outcome(startloc, Ok(out), next));
                            lemma_suffix_of_suffix(
                                next.items(),
                                startloc.items(),
                                outer_startloc.items(),
                            );
                            assert forall|res: Result<(O1,), E>, after: &I| #[trigger]
                                scan1(
                                    &self.0,
                                    outer_startloc,
                                    next,
                                    (Some(out),),
                                    0,
                                    Furthest::none(),
                                    res,
                                    after,
                                ) implies self.outcome(outer_startloc, res, after) by {
                                assert(scan1(
                                    &self.0,
                                    outer_startloc,
                                    startloc,
                                    slots,
                                    0,
                                    b0,
                                    res,
                                    after,
                                ));
                            }
                        }
                        r1 = Some(out);
                        continue ;
                    },
                    Err(err) => {
                        assert(self.0.0.outcome(startloc, Err(err), startloc));
                        best.note(err);
                        *input = startloc;
                    },
                }
            }
            let ghost b1 = best;
            assert(r1 is None ==> b1.err is Some);
            assert forall|res: Result<(O1,), E>, after: &I| #[trigger]
                scan1(&self.0, outer_startloc, startloc, slots, 1, b1, res, after) implies scan1(
                &self.0,
                outer_startloc,
                startloc,
                slots,
                0,
                b0,
                res,
                after,
            ) by {
            }
            match (r1,) {
                (Some(o1),) => {
                    assert(scan1(
                        &self.0,
                        outer_startloc,
                        startloc,
                        slots,
                        1,
                        b1,
                        Ok((o1,)),
                        startloc,
                    ));
                    return Ok((o1,));
                },
                _ => {
                    *input = outer_startloc;
                    let err = best.into_error();
                    assert(scan1(
                        &self.0,
                        outer_startloc,
                        startloc,
                        slots,
                        1,
                        b1,
                        Err(err),
                        outer_startloc,
                    ));
                    return Err(err);
                },
            }
        }
    }
}

/// Marks the permutation of two parsers.
pub struct SeqAlt2<T1, T2> {
    p1: PhantomData<T1>,
    p2: PhantomData<T2>,
}

/// How many of two parsers have not succeeded yet.
pub open spec fn pending2<O1, O2>(slots: (Option<O1>, Option<O2>)) -> nat {
    (if slots.0 is None {
        1nat
    } else {
        0
    }) + (if slots.1 is None {
        1nat
    } else {
        0
    })
}

/// What a permutation of two parsers that started at `entry` may come to,
/// when it stands at `cur` with the values of `slots`, has tried there the
/// parsers before the one at `at`, and has noted `best`.
///
/// A parser that has a value is passed over. Where one of the others
/// succeeds, its value is kept and the parsers are tried anew from where it
/// left the cursor. Where it fails, its error is noted and the next is tried.
/// With all tried, the permutation returns the values if every parser has
/// one; else it fails with the error chosen, and the cursor is at `entry`.
pub open spec fn scan2<'a, I, E, O1, P1, T1, O2, P2, T2>(
    parsers: &(P1, P2),
    entry: &I,
    cur: &I,
    slots: (Option<O1>, Option<O2>),
    at: nat,
    best: Furthest<E>,
    res: Result<(O1, O2), E>,
    after: &I,
) -> bool where
    I: ?Sized + Sequence,
    E: ParserError,
    P1: Parser<'a, I, O1, E, T1>,
    P2: Parser<'a, I, O2, E, T2>,

    decreases pending2(slots), 2 - at,
{
    if at == 0 {
        if slots.0 is Some {
            scan2(parsers, entry, cur, slots, 1, best, res, after)
        } else {
            ||| exists|out: O1, next: &I|
                {
                    &&& #[trigger] parsers.0.outcome(cur, Ok(out), next)
                    &&& scan2(
                        parsers,
                        entry,
                        next,
                        (Some(out), slots.1),
                        0,
                        Furthest::none(),
                        res,
                        after,
                    )
                }
            ||| exists|err: E|
                {
                    &&& #[trigger] parsers.0.outcome(cur, Err(err), cur)
                    &&& scan2(parsers, entry, cur, slots, 1, best.noted(err), res, after)
                }
        }
    } else if at == 1 {
        if slots.1 is Some {
            scan2(parsers, entry, cur, slots, 2, best, res, after)
        } else {
            ||| exists|out: O2, next: &I|
                {
                    &&& #[trigger] parsers.1.outcome(cur, Ok(out), next)
                    &&& scan2(
                        parsers,
                        entry,
                        next,
                        (slots.0, Some(out)),
                        0,
                        Furthest::none(),
                        res,
                        after,
                    )
                }
            ||| exists|err: E|
                {
                    &&& #[trigger] parsers.1.outcome(cur, Err(err), cur)
                    &&& scan2(parsers, entry, cur, slots, 2, best.noted(err), res, after)
                }
        }
    } else if pending2(slots) == 0 {
        &&& after == cur
        &&& res == Ok::<(O1, O2), E>((slots.0.unwrap(), slots.1.unwrap()))
    } else {
        &&& after == entry
        &&& res matches Err(err) && best.err == Some(err)
    }
}

/// The permutation of two parsers.
impl<'a, I: ?Sized + Sequence, E: ParserError, O1, P1, T1, O2, P2, T2> Parser<
    'a,
    I,
    (O1, O2),
    E,
    SeqAlt2<T1, T2>,
> for Permutation<(P1, P2)> where
    P1: Parser<'a, I, O1, E, T1>,
    P2: Parser<'a, I, O2, E, T2>,
 {
    open spec fn ready(&self) -> bool {
        &&& self.0.0.ready()
        &&& self.0.1.ready()
    }

    open spec fn outcome(&self, before: &I, res: Result<(O1, O2), E>, after: &I) -> bool {
        scan2(&self.0, before, before, (None, None), 0, Furthest::none(), res, after)
    }

    fn fab(&self, input: &mut &'a I) -> (res: Result<(O1, O2), E>) {
        let outer_startloc = *input;
        let mut r1: Option<O1> = None;
        let mut r2: Option<O2> = None;
        proof {
            lemma_suffix_of_self(outer_startloc.items());
        }
        loop
            invariant
                self.ready(),
                outer_startloc == *old(input),
                is_suffix(input.items(), outer_startloc.items()),
                forall|res: Result<(O1, O2), E>, after: &I| #[trigger]
                    scan2(&self.0, outer_startloc, *input, (r1, r2), 0, Furthest::none(), res,
                        after)
                        ==> self.outcome(outer_startloc, res, after),
            decreases pending2((r1, r2)),
        {
            let startloc = *input;
            let mut best = Furthest::new();
            let ghost slots = (r1, r2);
            let ghost b0 = best;
            if r1.is_none() {
                match self.0.0.fab(input) {
                    Ok(out) => {
                        proof {
                            let next = *input;
                            assert(self.0.0.outcome(startloc, Ok(out), next));
                            lemma_suffix_of_suffix(
                                next.items(),
                                startloc.items(),
                                outer_startloc.items(),
                            );
                            assert forall|res: Result<(O1, O2), E>, after: &I| #[trigger]
                                scan2(
                                    &self.0,
                                    outer_startloc,
                                    next,
                                    (Some(out), r2),
                                    0,
                                    Furthest::none(),
                                    res,
                                    after,
                                ) implies self.outcome(outer_startloc, res, after) by {
                                assert(scan2(
                                    &self.0,
                                    outer_startloc,
                                    startloc,
                                    slots,
                                    0,
                                    b0,
                                    res,
                                    after,
                                ));
                            }
                        }
                        r1 = Some(out);
                        continue ;
                    },
                    Err(err) => {
                        assert(self.0.0.outcome(startloc, Err(err), startloc));
                        best.note(err);
                        *input = startloc;
                    },
                }
            }
            let ghost b1 = best;
            assert(r1 is None ==> b1.err is Some);
            assert forall|res: Result<(O1, O2), E>, after: &I| #[trigger]
                scan2(&self.0, outer_startloc, startloc, slots, 1, b1, res, after) implies scan2(
                &self.0,
                outer_startloc,
                startloc,
                slots,
                0,
                b0,
                res,
                after,
            ) by {
            }
            if r2.is_none() {
                match self.0.1.fab(input) {
                    Ok(out) => {
                        proof {
                            let next = *input;
                            assert(self.0.1.outcome(startloc, Ok(out), next));
                            lemma_suffix_of_suffix(
                                next.items(),
                                startloc.items(),
                                outer_startloc.items(),
                            );
                            assert forall|res: Result<(O1, O2), E>, after: &I| #[trigger]
                                scan2(
                                    &self.0,
                                    outer_startloc,
                                    next,
                                    (r1, Some(out)),
                                    0,
                                    Furthest::none(),
                                    res,
                                    after,
                                ) implies self.outcome(outer_startloc, res, after) by {
                                assert(scan2(
                                    &self.0,
                                    outer_startloc,
                                    startloc,
                                    slots,
                                    1,
                                    b1,
                                    res,
                                    after,
                                ));
                            }
                        }
                        r2 = Some(out);
                        continue ;
                    },
                    Err(err) => {
                        assert(self.0.1.outcome(startloc, Err(err), startloc));
                        best.note(err);
                        *input = startloc;
                    },
                }
            }
            let ghost b2 = best;
            assert(r1 is None || r2 is None ==> b2.err is Some);
            assert forall|res: Result<(O1, O2), E>, after: &I| #[trigger]
                scan2(&self.0, outer_startloc, startloc, slots, 2, b2, res, after) implies scan2(
                &self.0,
                outer_startloc,
                startloc,
                slots,
                0,
                b0,
                res,
                after,
            ) by {
                assert(scan2(&self.0, outer_startloc, startloc, slots, 1, b1, res, after));
            }
            match (r1, r2) {
                (Some(o1), Some(o2)) => {
                    assert(scan2(
                        &self.0,
                        outer_startloc,
                        startloc,
                        slots,
                        2,
                        b2,
                        Ok((o1, o2)),
                        startloc,
                    ));
                    return Ok((o1, o2));
                },
                _ => {
                    *input = outer_startloc;
                    let err = best.into_error();
                    assert(scan2(
                        &self.0,
                        outer_startloc,
                        startloc,
                        slots,
                        2,
                        b2,
                        Err(err),
                        outer_startloc,
                    ));
                    return Err(err);
                },
            }
        }
    }
}

/// Marks the permutation of three parsers.
pub struct SeqAlt3<T1, T2, T3> {
    p1: PhantomData<T1>,
    p2: PhantomData<T2>,
    p3: PhantomData<T3>,
}

/// How many of three parsers have not succeeded yet.
pub open spec fn pending3<O1, O2, O3>(slots: (Option<O1>, Option<O2>, Option<O3>)) -> nat {
    (if slots.0 is None {
        1nat
    } else {
        0
    }) + (if slots.1 is None {
        1nat
    } else {
        0
    }) + (if slots.2 is None {
        1nat
    } else {
        0
    })
}

/// What a permutation of three parsers that started at `entry` may come to,
/// when it stands at `cur` with the values of `slots`, has tried there the
/// parsers before the one at `at`, and has noted `best`.
///
/// A parser that has a value is passed over. Where one of the others
/// succeeds, its value is kept and the parsers are tried anew from where it
/// left the cursor. Where it fails, its error is noted and the next is tried.
/// With all tried, the permutation returns the values if every parser has
/// one; else it fails with the error chosen, and the cursor is at `entry`.
pub open spec fn scan3<'a, I, E, O1, P1, T1, O2, P2, T2, O3, P3, T3>(
    parsers: &(P1, P2, P3),
    entry: &I,
    cur: &I,
    slots: (Option<O1>, Option<O2>, Option<O3>),
    at: nat,
    best: Furthest<E>,
    res: Result<(O1, O2, O3), E>,
    after: &I,
) -> bool where
    I: ?Sized + Sequence,
    E: ParserError,
    P1: Parser<'a, I, O1, E, T1>,
    P2: Parser<'a, I, O2, E, T2>,
    P3: Parser<'a, I, O3, E, T3>,

    decreases pending3(slots), 3 - at,
{
    if at == 0 {
        if slots.0 is Some {
            scan3(parsers, entry, cur, slots, 1, best, res, after)
        } else {
            ||| exists|out: O1, next: &I|
                {
                    &&& #[trigger] parsers.0.outcome(cur, Ok(out), next)
                    &&& scan3(
                        parsers,
                        entry,
                        next,
                        (Some(out), slots.1, slots.2),
                        0,
                        Furthest::none(),
                        res,
                        after,
                    )
                }
            ||| exists|err: E|
                {
                    &&& #[trigger] parsers.0.outcome(cur, Err(err), cur)
                    &&& scan3(parsers, entry, cur, slots, 1, best.noted(err), res, after)
                }
        }
    } else if at == 1 {
        if slots.1 is Some {
            scan3(parsers, entry, cur, slots, 2, best, res, after)
        } else {
            ||| exists|out: O2, next: &I|
                {
                    &&& #[trigger] parsers.1.outcome(cur, Ok(out), next)
                    &&& scan3(
                        parsers,
                        entry,
                        next,
                        (slots.0, Some(out), slots.2),
                        0,
                        Furthest::none(),
                        res,
                        after,
                    )
                }
            ||| exists|err: E|
                {
                    &&& #[trigger] parsers.1.outcome(cur, Err(err), cur)
                    &&& scan3(parsers, entry, cur, slots, 2, best.noted(err), res, after)
                }
        }
    } else if at == 2 {
        if slots.2 is Some {
            scan3(parsers, entry, cur, slots, 3, best, res, after)
        } else {
            ||| exists|out: O3, next: &I|
                {
                    &&& #[trigger] parsers.2.outcome(cur, Ok(out), next)
                    &&& scan3(
                        parsers,
                        entry,
                        next,
                        (slots.0, slots.1, Some(out)),
                        0,
                        Furthest::none(),
                        res,
                        after,
                    )
                }
            ||| exists|err: E|
                {
                    &&& #[trigger] parsers.2.outcome(cur, Err(err), cur)
                    &&& scan3(parsers, entry, cur, slots, 3, best.noted(err), res, after)
                }
        }
    } else if pending3(slots) == 0 {
        &&& after == cur
        &&& res == Ok::<(O1, O2, O3), E>((slots.0.unwrap(), slots.1.unwrap(), slots.2.unwrap()))
    } else {
        &&& after == entry
        &&& res matches Err(err) && best.err == Some(err)
    }
}

/// The permutation of three parsers.
impl<'a, I: ?Sized + Sequence, E: ParserError, O1, P1, T1, O2, P2, T2, O3, P3, T3> Parser<
    'a,
    I,
    (O1, O2, O3),
    E,
    SeqAlt3<T1, T2, T3>,
> for Permutation<(P1, P2, P3)> where
    P1: Parser<'a, I, O1, E, T1>,
    P2: Parser<'a, I, O2, E, T2>,
    P3: Parser<'a, I, O3, E, T3>,
 {
    open spec fn ready(&self) -> bool {
        &&& self.0.0.ready()
        &&& self.0.1.ready()
        &&& self.0.2.ready()
    }

    open spec fn outcome(&self, before: &I, res: Result<(O1, O2, O3), E>, after: &I) -> bool {
        scan3(&self.0, before, before, (None, None, None), 0, Furthest::none(), res, after)
    }

    fn fab(&self, input: &mut &'a I) -> (res: Result<(O1, O2, O3), E>) {
        let outer_startloc = *input;
        let mut r1: Option<O1> = None;
        let mut r2: Option<O2> = None;
        let mut r3: Option<O3> = None;
        proof {
            lemma_suffix_of_self(outer_startloc.items());
        }
        loop
            invariant
                self.ready(),
                outer_startloc == *old(input),
                is_suffix(input.items(), outer_startloc.items()),
                forall|res: Result<(O1, O2, O3), E>, after: &I| #[trigger]
                    scan3(&self.0, outer_startloc, *input, (r1, r2, r3), 0, Furthest::none(), res,
                        after)
                        ==> self.outcome(outer_startloc, res, after),
            decreases pending3((r1, r2, r3)),
        {
            let startloc = *input;
            let mut best = Furthest::new();
            let ghost slots = (r1, r2, r3);
            let ghost b0 = best;
            if r1.is_none() {
                match self.0.0.fab(input) {
                    Ok(out) => {
                        proof {
                            let next = *input;
                            assert(self.0.0.outcome(startloc, Ok(out), next));
                            lemma_suffix_of_suffix(
                                next.items(),
                                startloc.items(),
                                outer_startloc.items(),
                            );
                            assert forall|res: Result<(O1, O2, O3), E>, after: &I| #[trigger]
                                scan3(
                                    &self.0,
                                    outer_startloc,
                                    next,
                                    (Some(out), r2, r3),
                                    0,
                                    Furthest::none(),
                                    res,
                                    after,
                                ) implies self.outcome(outer_startloc, res, after) by {
                                assert(scan3(
                                    &self.0,
                                    outer_startloc,
                                    startloc,
                                    slots,
                                    0,
                                    b0,
                                    res,
                                    after,
                                ));
                            }
                        }
                        r1 = Some(out);
                        continue ;
                    },
                    Err(err) => {
                        assert(self.0.0.outcome(startloc, Err(err), startloc));
                        best.note(err);
                        *input = startloc;
                    },
                }
            }
            let ghost b1 = best;
            assert(r1 is None ==> b1.err is Some);
            assert forall|res: Result<(O1, O2, O3), E>, after: &I| #[trigger]
                scan3(&self.0, outer_startloc, startloc, slots, 1, b1, res, after) implies scan3(
                &self.0,
                outer_startloc,
                startloc,
                slots,
                0,
                b0,
                res,
                after,
            ) by {
            }
            if r2.is_none() {
                match self.0.1.fab(input) {
                    Ok(out) => {
                        proof {
                            let next = *input;
                            assert(self.0.1.outcome(startloc, Ok(out), next));
                            lemma_suffix_of_suffix(
                                next.items(),
                                startloc.items(),
                                outer_startloc.items(),
                            );
                            assert forall|res: Result<(O1, O2, O3), E>, after: &I| #[trigger]
                                scan3(
                                    &self.0,
                                    outer_startloc,
                                    next,
                                    (r1, Some(out), r3),
                                    0,
                                    Furthest::none(),
                                    res,
                                    after,
                                ) implies self.outcome(outer_startloc, res, after) by {
                                assert(scan3(
                                    &self.0,
                                    outer_startloc,
                                    startloc,
                                    slots,
                                    1,
                                    b1,
                                    res,
                                    after,
                                ));
                            }
                        }
                        r2 = Some(out);
                        continue ;
                    },
                    Err(err) => {
                        assert(self.0.1.outcome(startloc, Err(err), startloc));
                        best.note(err);
                        *input = startloc;
                    },
                }
            }
            let ghost b2 = best;
            assert(r1 is None || r2 is None ==> b2.err is Some);
            assert forall|res: Result<(O1, O2, O3), E>, after: &I| #[trigger]
                scan3(&self.0, outer_startloc, startloc, slots, 2, b2, res, after) implies scan3(
                &self.0,
                outer_startloc,
                startloc,
                slots,
                0,
                b0,
                res,
                after,
            ) by {
                assert(scan3(&self.0, outer_startloc, startloc, slots, 1, b1, res, after));
            }
            if r3.is_none() {
                match self.0.2.fab(input) {
                    Ok(out) => {
                        proof {
                            let next = *input;
                            assert(self.0.2.outcome(startloc, Ok(out), next));
                            lemma_suffix_of_suffix(
                                next.items(),
                                startloc.items(),
                                outer_startloc.items(),
                            );
                            assert forall|res: Result<(O1, O2, O3), E>, after: &I| #[trigger]
                                scan3(
                                    &self.0,
                                    outer_startloc,
                                    next,
                                    (r1, r2, Some(out)),
                                    0,
                                    Furthest::none(),
                                    res,
                                    after,
                                ) implies self.outcome(outer_startloc, res, after) by {
                                assert(scan3(
                                    &self.0,
                                    outer_startloc,
                                    startloc,
                                    slots,
                                    2,
                                    b2,
                                    res,
                                    after,
                                ));
                            }
                        }
                        r3 = Some(out);
                        continue ;
                    },
                    Err(err) => {
                        assert(self.0.2.outcome(startloc, Err(err), startloc));
                        best.note(err);
                        *input = startloc;
                    },
                }
            }
            let ghost b3 = best;
            assert(r1 is None || r2 is None || r3 is None ==> b3.err is Some);
            assert forall|res: Result<(O1, O2, O3), E>, after: &I| #[trigger]
                scan3(&self.0, outer_startloc, startloc, slots, 3, b3, res, after) implies scan3(
                &self.0,
                outer_startloc,
                startloc,
                slots,
                0,
                b0,
                res,
                after,
            ) by {
                assert(scan3(&self.0, outer_startloc, startloc, slots, 2, b2, res, after));
            }
            match (r1, r2, r3) {
                (Some(o1), Some(o2), Some(o3)) => {
                    assert(scan3(
                        &self.0,
                        outer_startloc,
                        startloc,
                        slots,
                        3,
                        b3,
                        Ok((o1, o2, o3)),
                        startloc,
                    ));
                    return Ok((o1, o2, o3));
                },
                _ => {
                    *input = outer_startloc;
                    let err = best.into_error();
                    assert(scan3(
                        &self.0,
                        outer_startloc,
                        startloc,
                        slots,
                        3,
                        b3,
                        Err(err),
                        outer_startloc,
                    ));
                    return Err(err);
                },
            }
        }
    }
}

/// Marks the permutation of four parsers.
pub struct SeqAlt4<T1, T2, T3, T4> {
    p1: PhantomData<T1>,
    p2: PhantomData<T2>,
    p3: PhantomData<T3>,
    p4: PhantomData<T4>,
}

/// How many of four parsers have not succeeded yet.
pub open spec fn pending4<O1, O2, O3, O4>(slots: (Option<O1>, Option<O2>, Option<O3>,
    Option<O4>)) -> nat {
    (if slots.0 is None {
        1nat
    } else {
        0
    }) + (if slots.1 is None {
        1nat
    } else {
        0
    }) + (if slots.2 is None {
        1nat
    } else {
        0
    }) + (if slots.3 is None {
        1nat
    } else {
        0
    })
}

/// What a permutation of four parsers that started at `entry` may come to,
/// when it stands at `cur` with the values of `slots`, has tried there the
/// parsers before the one at `at`, and has noted `best`.
///
/// A parser that has a value is passed over. Where one of the others
/// succeeds, its value is kept and the parsers are tried anew from where it
/// left the cursor. Where it fails, its error is noted and the next is tried.
/// With all tried, the permutation returns the values if every parser has
/// one; else it fails with the error chosen, and the cursor is at `entry`.
pub open spec fn scan4<'a, I, E, O1, P1, T1, O2, P2, T2, O3, P3, T3, O4, P4, T4>(
    parsers: &(P1, P2, P3, P4),
    entry: &I,
    cur: &I,
    slots: (Option<O1>, Option<O2>, Option<O3>, Option<O4>),
    at: nat,
    best: Furthest<E>,
    res: Result<(O1, O2, O3, O4), E>,
    after: &I,
) -> bool where
    I: ?Sized + Sequence,
    E: ParserError,
    P1: Parser<'a, I, O1, E, T1>,
    P2: Parser<'a, I, O2, E, T2>,
    P3: Parser<'a, I, O3, E, T3>,
    P4: Parser<'a, I, O4, E, T4>,

    decreases pending4(slots), 4 - at,
{
    if at == 0 {
        if slots.0 is Some {
            scan4(parsers, entry, cur, slots, 1, best, res, after)
        } else {
            ||| exists|out: O1, next: &I|
                {
                    &&& #[trigger] parsers.0.outcome(cur, Ok(out), next)
                    &&& scan4(
                        parsers,
                        entry,
                        next,
                        (Some(out), slots.1, slots.2, slots.3),
                        0,
                        Furthest::none(),
                        res,
                        after,
                    )
                }
            ||| exists|err: E|
                {
                    &&& #[trigger] parsers.0.outcome(cur, Err(err), cur)
                    &&& scan4(parsers, entry, cur, slots, 1, best.noted(err), res, after)
                }
        }
    } else if at == 1 {
        if slots.1 is Some {
            scan4(parsers, entry, cur, slots, 2, best, res, after)
        } else {
            ||| exists|out: O2, next: &I|
                {
                    &&& #[trigger] parsers.1.outcome(cur, Ok(out), next)
                    &&& scan4(
                        parsers,
                        entry,
                        next,
                        (slots.0, Some(out), slots.2, slots.3),
                        0,
                        Furthest::none(),
                        res,
                        after,
                    )
                }
            ||| exists|err: E|
                {
                    &&& #[trigger] parsers.1.outcome(cur, Err(err), cur)
                    &&& scan4(parsers, entry, cur, slots, 2, best.noted(err), res, after)
                }
        }
    } else if at == 2 {
        if slots.2 is Some {
            scan4(parsers, entry, cur, slots, 3, best, res, after)
        } else {
            ||| exists|out: O3, next: &I|
                {
                    &&& #[trigger] parsers.2.outcome(cur, Ok(out), next)
                    &&& scan4(
                        parsers,
                        entry,
                        next,
                        (slots.0, slots.1, Some(out), slots.3),
                        0,
                        Furthest::none(),
                        res,
                        after,
                    )
                }
            ||| exists|err: E|
                {
                    &&& #[trigger] parsers.2.outcome(cur, Err(err), cur)
                    &&& scan4(parsers, entry, cur, slots, 3, best.noted(err), res, after)
                }
        }
    } else if at == 3 {
        if slots.3 is Some {
            scan4(parsers, entry, cur, slots, 4, best, res, after)
        } else {
            ||| exists|out: O4, next: &I|
                {
                    &&& #[trigger] parsers.3.outcome(cur, Ok(out), next)
                    &&& scan4(
                        parsers,
                        entry,
                        next,
                        (slots.0, slots.1, slots.2, Some(out)),
                        0,
                        Furthest::none(),
                        res,
                        after,
                    )
                }
            ||| exists|err: E|
                {
                    &&& #[trigger] parsers.3.outcome(cur, Err(err), cur)
                    &&& scan4(parsers, entry, cur, slots, 4, best.noted(err), res, after)
                }
        }
    } else if pending4(slots) == 0 {
        &&& after == cur
        &&& res == Ok::<(O1, O2, O3, O4), E>((slots.0.unwrap(), slots.1.unwrap(), slots.2.unwrap(),
            slots.3.unwrap()))
    } else {
        &&& after == entry
        &&& res matches Err(err) && best.err == Some(err)
    }
}

/// The permutation of four parsers.
impl<'a, I: ?Sized + Sequence, E: ParserError, O1, P1, T1, O2, P2, T2, O3, P3, T3, O4, P4,
    T4> Parser<
    'a,
    I,
    (O1, O2, O3, O4),
    E,
    SeqAlt4<T1, T2, T3, T4>,
> for Permutation<(P1, P2, P3, P4)> where
    P1: Parser<'a, I, O1, E, T1>,
    P2: Parser<'a, I, O2, E, T2>,
    P3: Parser<'a, I, O3, E, T3>,
    P4: Parser<'a, I, O4, E, T4>,
 {
    open spec fn ready(&self) -> bool {
        &&& self.0.0.ready()
        &&& self.0.1.ready()
        &&& self.0.2.ready()
        &&& self.0.3.ready()
    }

    open spec fn outcome(&self, before: &I, res: Result<(O1, O2, O3, O4), E>, after: &I) -> bool {
        scan4(&self.0, before, before, (None, None, None, None), 0, Furthest::none(), res, after)
    }

    fn fab(&self, input: &mut &'a I) -> (res: Result<(O1, O2, O3, O4), E>) {
        let outer_startloc = *input;
        let mut r1: Option<O1> = None;
        let mut r2: Option<O2> = None;
        let mut r3: Option<O3> = None;
        let mut r4: Option<O4> = None;
        proof {
            lemma_suffix_of_self(outer_startloc.items());
        }
        loop
            invariant
                self.ready(),
                outer_startloc == *old(input),
                is_suffix(input.items(), outer_startloc.items()),
                forall|res: Result<(O1, O2, O3, O4), E>, after: &I| #[trigger]
                    scan4(&self.0, outer_startloc, *input, (r1, r2, r3, r4), 0, Furthest::none(),
                        res, after)
                        ==> self.outcome(outer_startloc, res, after),
            decreases pending4((r1, r2, r3, r4)),
        {
            let startloc = *input;
            let mut best = Furthest::new();
            let ghost slots = (r1, r2, r3, r4);
            let ghost b0 = best;
            if r1.is_none() {
                match self.0.0.fab(input) {
                    Ok(out) => {
                        proof {
                            let next = *input;
                            assert(self.0.0.outcome(startloc, Ok(out), next));
                            lemma_suffix_of_suffix(
                                next.items(),
                                startloc.items(),
                                outer_startloc.items(),
                            );
                            assert forall|res: Result<(O1, O2, O3, O4), E>, after: &I| #[trigger]
                                scan4(
                                    &self.0,
                                    outer_startloc,
                                    next,
                                    (Some(out), r2, r3, r4),
                                    0,
                                    Furthest::none(),
                                    res,
                                    after,
                                ) implies self.outcome(outer_startloc, res, after) by {
                                assert(scan4(
                                    &self.0,
                                    outer_startloc,
                                    startloc,
                                    slots,
                                    0,
                                    b0,
                                    res,
                                    after,
                                ));
                            }
                        }
                        r1 = Some(out);
                        continue ;
                    },
                    Err(err) => {
                        assert(self.0.0.outcome(startloc, Err(err), startloc));
                        best.note(err);
                        *input = startloc;
                    },
                }
            }
            let ghost b1 = best;
            assert(r1 is None ==> b1.err is Some);
            assert forall|res: Result<(O1, O2, O3, O4), E>, after: &I| #[trigger]
                scan4(&self.0, outer_startloc, startloc, slots, 1, b1, res, after) implies scan4(
                &self.0,
                outer_startloc,
                startloc,
                slots,
                0,
                b0,
                res,
                after,
            ) by {
            }
            if r2.is_none() {
                match self.0.1.fab(input) {
                    Ok(out) => {
                        proof {
                            let next = *input;
                            assert(self.0.1.outcome(startloc, Ok(out), next));
                            lemma_suffix_of_suffix(
                                next.items(),
                                startloc.items(),
                                outer_startloc.items(),
                            );
                            assert forall|res: Result<(O1, O2, O3, O4), E>, after: &I| #[trigger]
                                scan4(
                                    &self.0,
                                    outer_startloc,
                                    next,
                                    (r1, Some(out), r3, r4),
                                    0,
                                    Furthest::none(),
                                    res,
                                    after,
                                ) implies self.outcome(outer_startloc, res, after) by {
                                assert(scan4(
                                    &self.0,
                                    outer_startloc,
                                    startloc,
                                    slots,
                                    1,
                                    b1,
                                    res,
                                    after,
                                ));
                            }
                        }
                        r2 = Some(out);
                        continue ;
                    },
                    Err(err) => {
                        assert(self.0.1.outcome(startloc, Err(err), startloc));
                        best.note(err);
                        *input = startloc;
                    },
                }
            }
            let ghost b2 = best;
            assert(r1 is None || r2 is None ==> b2.err is Some);
            assert forall|res: Result<(O1, O2, O3, O4), E>, after: &I| #[trigger]
                scan4(&self.0, outer_startloc, startloc, slots, 2, b2, res, after) implies scan4(
                &self.0,
                outer_startloc,
                startloc,
                slots,
                0,
                b0,
                res,
                after,
            ) by {
                assert(scan4(&self.0, outer_startloc, startloc, slots, 1, b1, res, after));
            }
            if r3.is_none() {
                match self.0.2.fab(input) {
                    Ok(out) => {
                        proof {
                            let next = *input;
                            assert(self.0.2.outcome(startloc, Ok(out), next));
                            lemma_suffix_of_suffix(
                                next.items(),
                                startloc.items(),
                                outer_startloc.items(),
                            );
                            assert forall|res: Result<(O1, O2, O3, O4), E>, after: &I| #[trigger]
                                scan4(
                                    &self.0,
                                    outer_startloc,
                                    next,
                                    (r1, r2, Some(out), r4),
                                    0,
                                    Furthest::none(),
                                    res,
                                    after,
                                ) implies self.outcome(outer_startloc, res, after) by {
                                assert(scan4(
                                    &self.0,
                                    outer_startloc,
                                    startloc,
                                    slots,
                                    2,
                                    b2,
                                    res,
                                    after,
                                ));
                            }
                        }
                        r3 = Some(out);
                        continue ;
                    },
                    Err(err) => {
                        assert(self.0.2.outcome(startloc, Err(err), startloc));
                        best.note(err);
                        *input = startloc;
                    },
                }
            }
            let ghost b3 = best;
            assert(r1 is None || r2 is None || r3 is None ==> b3.err is Some);
            assert forall|res: Result<(O1, O2, O3, O4), E>, after: &I| #[trigger]
                scan4(&self.0, outer_startloc, startloc, slots, 3, b3, res, after) implies scan4(
                &self.0,
                outer_startloc,
                startloc,
                slots,
                0,
                b0,
                res,
                after,
            ) by {
                assert(scan4(&self.0, outer_startloc, startloc, slots, 2, b2, res, after));
            }
            if r4.is_none() {
                match self.0.3.fab(input) {
                    Ok(out) => {
                        proof {
                            let next = *input;
                            assert(self.0.3.outcome(startloc, Ok(out), next));
                            lemma_suffix_of_suffix(
                                next.items(),
                                startloc.items(),
                                outer_startloc.items(),
                            );
                            assert forall|res: Result<(O1, O2, O3, O4), E>, after: &I| #[trigger]
                                scan4(
                                    &self.0,
                                    outer_startloc,
                                    next,
                                    (r1, r2, r3, Some(out)),
                                    0,
                                    Furthest::none(),
                                    res,
                                    after,
                                ) implies self.outcome(outer_startloc, res, after) by {
                                assert(scan4(
                                    &self.0,
                                    outer_startloc,
                                    startloc,
                                    slots,
                                    3,
                                    b3,
                                    res,
                                    after,
                                ));
                            }
                        }
                        r4 = Some(out);
                        continue ;
                    },
                    Err(err) => {
                        assert(self.0.3.outcome(startloc, Err(err), startloc));
                        best.note(err);
                        *input = startloc;
                    },
                }
            }
            let ghost b4 = best;
            assert(r1 is None || r2 is None || r3 is None || r4 is None ==> b4.err is Some);
            assert forall|res: Result<(O1, O2, O3, O4), E>, after: &I| #[trigger]
                scan4(&self.0, outer_startloc, startloc, slots, 4, b4, res, after) implies scan4(
                &self.0,
                outer_startloc,
                startloc,
                slots,
                0,
                b0,
                res,
                after,
            ) by {
                assert(scan4(&self.0, outer_startloc, startloc, slots, 3, b3, res, after));
            }
            match (r1, r2, r3, r4) {
                (Some(o1), Some(o2), Some(o3), Some(o4)) => {
                    assert(scan4(
                        &self.0,
                        outer_startloc,
                        startloc,
                        slots,
                        4,
                        b4,
                        Ok((o1, o2, o3, o4)),
                        startloc,
                    ));
                    return Ok((o1, o2, o3, o4));
                },
                _ => {
                    *input = outer_startloc;
                    let err = best.into_error();
                    assert(scan4(
                        &self.0,
                        outer_startloc,
                        startloc,
                        slots,
                        4,
                        b4,
                        Err(err),
                        outer_startloc,
                    ));
                    return Err(err);
                },
            }
        }
    }
}

/// Marks the permutation of five parsers.
pub struct SeqAlt5<T1, T2, T3, T4, T5> {
    p1: PhantomData<T1>,
    p2: PhantomData<T2>,
    p3: PhantomData<T3>,
    p4: PhantomData<T4>,
    p5: PhantomData<T5>,
}

/// How many of five parsers have not succeeded yet.
pub open spec fn pending5<O1, O2, O3, O4, O5>(slots: (Option<O1>, Option<O2>, Option<O3>,
    Option<O4>, Option<O5>)) -> nat {
    (if slots.0 is None {
        1nat
    } else {
        0
    }) + (if slots.1 is None {
        1nat
    } else {
        0
    }) + (if slots.2 is None {
        1nat
    } else {
        0
    }) + (if slots.3 is None {
        1nat
    } else {
        0
    }) + (if slots.4 is None {
        1nat
    } else {
        0
    })
}

/// What a permutation of five parsers that started at `entry` may come to,
/// when it stands at `cur` with the values of `slots`, has tried there the
/// parsers before the one at `at`, and has noted `best`.
///
/// A parser that has a value is passed over. Where one of the others
/// succeeds, its value is kept and the parsers are tried anew from where it
/// left the cursor. Where it fails, its error is noted and the next is tried.
/// With all tried, the permutation returns the values if every parser has
/// one; else it fails with the error chosen, and the cursor is at `entry`.
pub open spec fn scan5<'a, I, E, O1, P1, T1, O2, P2, T2, O3, P3, T3, O4, P4, T4, O5, P5, T5>(
    parsers: &(P1, P2, P3, P4, P5),
    entry: &I,
    cur: &I,
    slots: (Option<O1>, Option<O2>, Option<O3>, Option<O4>, Option<O5>),
    at: nat,
    best: Furthest<E>,
    res: Result<(O1, O2, O3, O4, O5), E>,
    after: &I,
) -> bool where
    I: ?Sized + Sequence,
    E: ParserError,
    P1: Parser<'a, I, O1, E, T1>,
    P2: Parser<'a, I, O2, E, T2>,
    P3: Parser<'a, I, O3, E, T3>,
    P4: Parser<'a, I, O4, E, T4>,
    P5: Parser<'a, I, O5, E, T5>,

    decreases pending5(slots), 5 - at,
{
    if at == 0 {
        if slots.0 is Some {
            scan5(parsers, entry, cur, slots, 1, best, res, after)
        } else {
            ||| exists|out: O1, next: &I|
                {
                    &&& #[trigger] parsers.0.outcome(cur, Ok(out), next)
                    &&& scan5(
                        parsers,
                        entry,
                        next,
                        (Some(out), slots.1, slots.2, slots.3, slots.4),
                        0,
                        Furthest::none(),
                        res,
                        after,
                    )
                }
            ||| exists|err: E|
                {
                    &&& #[trigger] parsers.0.outcome(cur, Err(err), cur)
                    &&& scan5(parsers, entry, cur, slots, 1, best.noted(err), res, after)
                }
        }
    } else if at == 1 {
        if slots.1 is Some {
            scan5(parsers, entry, cur, slots, 2, best, res, after)
        } else {
            ||| exists|out: O2, next: &I|
                {
                    &&& #[trigger] parsers.1.outcome(cur, Ok(out), next)
                    &&& scan5(
                        parsers,
                        entry,
                        next,
                        (slots.0, Some(out), slots.2, slots.3, slots.4),
                        0,
                        Furthest::none(),
                        res,
                        after,
                    )
                }
            ||| exists|err: E|
                {
                    &&& #[trigger] parsers.1.outcome(cur, Err(err), cur)
                    &&& scan5(parsers, entry, cur, slots, 2, best.noted(err), res, after)
                }
        }
    } else if at == 2 {
        if slots.2 is Some {
            scan5(parsers, entry, cur, slots, 3, best, res, after)
        } else {
            ||| exists|out: O3, next: &I|
                {
                    &&& #[trigger] parsers.2.outcome(cur, Ok(out), next)
                    &&& scan5(
                        parsers,
                        entry,
                        next,
                        (slots.0, slots.1, Some(out), slots.3, slots.4),
                        0,
                        Furthest::none(),
                        res,
                        after,
                    )
                }
            ||| exists|err: E|
                {
                    &&& #[trigger] parsers.2.outcome(cur, Err(err), cur)
                    &&& scan5(parsers, entry, cur, slots, 3, best.noted(err), res, after)
                }
        }
    } else if at == 3 {
        if slots.3 is Some {
            scan5(parsers, entry, cur, slots, 4, best, res, after)
        } else {
            ||| exists|out: O4, next: &I|
                {
                    &&& #[trigger] parsers.3.outcome(cur, Ok(out), next)
                    &&& scan5(
                        parsers,
                        entry,
                        next,
                        (slots.0, slots.1, slots.2, Some(out), slots.4),
                        0,
                        Furthest::none(),
                        res,
                        after,
                    )
                }
            ||| exists|err: E|
                {
                    &&& #[trigger] parsers.3.outcome(cur, Err(err), cur)
                    &&& scan5(parsers, entry, cur, slots, 4, best.noted(err), res, after)
                }
        }
    } else if at == 4 {
        if slots.4 is Some {
            scan5(parsers, entry, cur, slots, 5, best, res, after)
        } else {
            ||| exists|out: O5, next: &I|
                {
                    &&& #[trigger] parsers.4.outcome(cur, Ok(out), next)
                    &&& scan5(
                        parsers,
                        entry,
                        next,
                        (slots.0, slots.1, slots.2, slots.3, Some(out)),
                        0,
                        Furthest::none(),
                        res,
                        after,
                    )
                }
            ||| exists|err: E|
                {
                    &&& #[trigger] parsers.4.outcome(cur, Err(err), cur)
                    &&& scan5(parsers, entry, cur, slots, 5, best.noted(err), res, after)
                }
        }
    } else if pending5(slots) == 0 {
        &&& after == cur
        &&& res == Ok::<(O1, O2, O3, O4, O5), E>((slots.0.unwrap(), slots.1.unwrap(),
            slots.2.unwrap(), slots.3.unwrap(), slots.4.unwrap()))
    } else {
        &&& after == entry
        &&& res matches Err(err) && best.err == Some(err)
    }
}

/// The permutation of five parsers.
impl<'a, I: ?Sized + Sequence, E: ParserError, O1, P1, T1, O2, P2, T2, O3, P3, T3, O4, P4, T4, O5,
    P5, T5> Parser<
    'a,
    I,
    (O1, O2, O3, O4, O5),
    E,
    SeqAlt5<T1, T2, T3, T4, T5>,
> for Permutation<(P1, P2, P3, P4, P5)> where
    P1: Parser<'a, I, O1, E, T1>,
    P2: Parser<'a, I, O2, E, T2>,
    P3: Parser<'a, I, O3, E, T3>,
    P4: Parser<'a, I, O4, E, T4>,
    P5: Parser<'a, I, O5, E, T5>,
 {
    open spec fn ready(&self) -> bool {
        &&& self.0.0.ready()
        &&& self.0.1.ready()
        &&& self.0.2.ready()
        &&& self.0.3.ready()
        &&& self.0.4.ready()
    }

    open spec fn outcome(&self, before: &I, res: Result<(O1, O2, O3, O4, O5), E>,
        after: &I) -> bool {
        scan5(&self.0, before, before, (None, None, None, None, None), 0, Furthest::none(), res,
            after)
    }

    fn fab(&self, input: &mut &'a I) -> (res: Result<(O1, O2, O3, O4, O5), E>) {
        let outer_startloc = *input;
        let mut r1: Option<O1> = None;
        let mut r2: Option<O2> = None;
        let mut r3: Option<O3> = None;
        let mut r4: Option<O4> = None;
        let mut r5: Option<O5> = None;
        proof {
            lemma_suffix_of_self(outer_startloc.items());
        }
        loop
            invariant
                self.ready(),
                outer_startloc == *old(input),
                is_suffix(input.items(), outer_startloc.items()),
                forall|res: Result<(O1, O2, O3, O4, O5), E>, after: &I| #[trigger]
                    scan5(&self.0, outer_startloc, *input, (r1, r2, r3, r4, r5), 0,
                        Furthest::none(), res, after)
                        ==> self.outcome(outer_startloc, res, after),
            decreases pending5((r1, r2, r3, r4, r5)),
        {
            let startloc = *input;
            let mut best = Furthest::new();
            let ghost slots = (r1, r2, r3, r4, r5);
            let ghost b0 = best;
            if r1.is_none() {
                match self.0.0.fab(input) {
                    Ok(out) => {
                        proof {
                            let next = *input;
                            assert(self.0.0.outcome(startloc, Ok(out), next));
                            lemma_suffix_of_suffix(
                                next.items(),
                                startloc.items(),
                                outer_startloc.items(),
                            );
                            assert forall|res: Result<(O1, O2, O3, O4, O5), E>,
                                after: &I| #[trigger]
                                scan5(
                                    &self.0,
                                    outer_startloc,
                                    next,
                                    (Some(out), r2, r3, r4, r5),
                                    0,
                                    Furthest::none(),
                                    res,
                                    after,
                                ) implies self.outcome(outer_startloc, res, after) by {
                                assert(scan5(
                                    &self.0,
                                    outer_startloc,
                                    startloc,
                                    slots,
                                    0,
                                    b0,
                                    res,
                                    after,
                                ));
                            }
                        }
                        r1 = Some(out);
                        continue ;
                    },
                    Err(err) => {
                        assert(self.0.0.outcome(startloc, Err(err), startloc));
                        best.note(err);
                        *input = startloc;
                    },
                }
            }
            let ghost b1 = best;
            assert(r1 is None ==> b1.err is Some);
            assert forall|res: Result<(O1, O2, O3, O4, O5), E>, after: &I| #[trigger]
                scan5(&self.0, outer_startloc, startloc, slots, 1, b1, res, after) implies scan5(
                &self.0,
                outer_startloc,
                startloc,
                slots,
                0,
                b0,
                res,
                after,
            ) by {
            }
            if r2.is_none() {
                match self.0.1.fab(input) {
                    Ok(out) => {
                        proof {
                            let next = *input;
                            assert(self.0.1.outcome(startloc, Ok(out), next));
                            lemma_suffix_of_suffix(
                                next.items(),
                                startloc.items(),
                                outer_startloc.items(),
                            );
                            assert forall|res: Result<(O1, O2, O3, O4, O5), E>,
                                after: &I| #[trigger]
                                scan5(
                                    &self.0,
                                    outer_startloc,
                                    next,
                                    (r1, Some(out), r3, r4, r5),
                                    0,
                                    Furthest::none(),
                                    res,
                                    after,
                                ) implies self.outcome(outer_startloc, res, after) by {
                                assert(scan5(
                                    &self.0,
                                    outer_startloc,
                                    startloc,
                                    slots,
                                    1,
                                    b1,
                                    res,
                                    after,
                                ));
                            }
                        }
                        r2 = Some(out);
                        continue ;
                    },
                    Err(err) => {
                        assert(self.0.1.outcome(startloc, Err(err), startloc));
                        best.note(err);
                        *input = startloc;
                    },
                }
            }
            let ghost b2 = best;
            assert(r1 is None || r2 is None ==> b2.err is Some);
            assert forall|res: Result<(O1, O2, O3, O4, O5), E>, after: &I| #[trigger]
                scan5(&self.0, outer_startloc, startloc, slots, 2, b2, res, after) implies scan5(
                &self.0,
                outer_startloc,
                startloc,
                slots,
                0,
                b0,
                res,
                after,
            ) by {
                assert(scan5(&self.0, outer_startloc, startloc, slots, 1, b1, res, after));
            }
            if r3.is_none() {
                match self.0.2.fab(input) {
                    Ok(out) => {
                        proof {
                            let next = *input;
                            assert(self.0.2.outcome(startloc, Ok(out), next));
                            lemma_suffix_of_suffix(
                                next.items(),
                                startloc.items(),
                                outer_startloc.items(),
                            );
                            assert forall|res: Result<(O1, O2, O3, O4, O5), E>,
                                after: &I| #[trigger]
                                scan5(
                                    &self.0,
                                    outer_startloc,
                                    next,
                                    (r1, r2, Some(out), r4, r5),
                                    0,
                                    Furthest::none(),
                                    res,
                                    after,
                                ) implies self.outcome(outer_startloc, res, after) by {
                                assert(scan5(
                                    &self.0,
                                    outer_startloc,
                                    startloc,
                                    slots,
                                    2,
                                    b2,
                                    res,
                                    after,
                                ));
                            }
                        }
                        r3 = Some(out);
                        continue ;
                    },
                    Err(err) => {
                        assert(self.0.2.outcome(startloc, Err(err), startloc));
                        best.note(err);
                        *input = startloc;
                    },
                }
            }
            let ghost b3 = best;
            assert(r1 is None || r2 is None || r3 is None ==> b3.err is Some);
            assert forall|res: Result<(O1, O2, O3, O4, O5), E>, after: &I| #[trigger]
                scan5(&self.0, outer_startloc, startloc, slots, 3, b3, res, after) implies scan5(
                &self.0,
                outer_startloc,
                startloc,
                slots,
                0,
                b0,
                res,
                after,
            ) by {
                assert(scan5(&self.0, outer_startloc, startloc, slots, 2, b2, res, after));
            }
            if r4.is_none() {
                match self.0.3.fab(input) {
                    Ok(out) => {
                        proof {
                            let next = *input;
                            assert(self.0.3.outcome(startloc, Ok(out), next));
                            lemma_suffix_of_suffix(
                                next.items(),
                                startloc.items(),
                                outer_startloc.items(),
                            );
                            assert forall|res: Result<(O1, O2, O3, O4, O5), E>,
                                after: &I| #[trigger]
                                scan5(
                                    &self.0,
                                    outer_startloc,
                                    next,
                                    (r1, r2, r3, Some(out), r5),
                                    0,
                                    Furthest::none(),
                                    res,
                                    after,
                                ) implies self.outcome(outer_startloc, res, after) by {
                                assert(scan5(
                                    &self.0,
                                    outer_startloc,
                                    startloc,
                                    slots,
                                    3,
                                    b3,
                                    res,
                                    after,
                                ));
                            }
                        }
                        r4 = Some(out);
                        continue ;
                    },
                    Err(err) => {
                        assert(self.0.3.outcome(startloc, Err(err), startloc));
                        best.note(err);
                        *input = startloc;
                    },
                }
            }
            let ghost b4 = best;
            assert(r1 is None || r2 is None || r3 is None || r4 is None ==> b4.err is Some);
            assert forall|res: Result<(O1, O2, O3, O4, O5), E>, after: &I| #[trigger]
                scan5(&self.0, outer_startloc, startloc, slots, 4, b4, res, after) implies scan5(
                &self.0,
                outer_startloc,
                startloc,
                slots,
                0,
                b0,
                res,
                after,
            ) by {
                assert(scan5(&self.0, outer_startloc, startloc, slots, 3, b3, res, after));
            }
            if r5.is_none() {
                match self.0.4.fab(input) {
                    Ok(out) => {
                        proof {
                            let next = *input;
                            assert(self.0.4.outcome(startloc, Ok(out), next));
                            lemma_suffix_of_suffix(
                                next.items(),
                                startloc.items(),
                                outer_startloc.items(),
                            );
                            assert forall|res: Result<(O1, O2, O3, O4, O5), E>,
                                after: &I| #[trigger]
                                scan5(
                                    &self.0,
                                    outer_startloc,
                                    next,
                                    (r1, r2, r3, r4, Some(out)),
                                    0,
                                    Furthest::none(),
                                    res,
                                    after,
                                ) implies self.outcome(outer_startloc, res, after) by {
                                assert(scan5(
                                    &self.0,
                                    outer_startloc,
                                    startloc,
                                    slots,
                                    4,
                                    b4,
                                    res,
                                    after,
                                ));
                            }
                        }
                        r5 = Some(out);
                        continue ;
                    },
                    Err(err) => {
                        assert(self.0.4.outcome(startloc, Err(err), startloc));
                        best.note(err);
                        *input = startloc;
                    },
                }
            }
            let ghost b5 = best;
            assert(r1 is None || r2 is None || r3 is None || r4 is None || r5 is None
                ==> b5.err is Some);
            assert forall|res: Result<(O1, O2, O3, O4, O5), E>, after: &I| #[trigger]
                scan5(&self.0, outer_startloc, startloc, slots, 5, b5, res, after) implies scan5(
                &self.0,
                outer_startloc,
                startloc,
                slots,
                0,
                b0,
                res,
                after,
            ) by {
                assert(scan5(&self.0, outer_startloc, startloc, slots, 4, b4, res, after));
            }
            match (r1, r2, r3, r4, r5) {
                (Some(o1), Some(o2), Some(o3), Some(o4), Some(o5)) => {
                    assert(scan5(
                        &self.0,
                        outer_startloc,
                        startloc,
                        slots,
                        5,
                        b5,
                        Ok((o1, o2, o3, o4, o5)),
                        startloc,
                    ));
                    return Ok((o1, o2, o3, o4, o5));
                },
                _ => {
                    *input = outer_startloc;
                    let err = best.into_error();
                    assert(scan5(
                        &self.0,
                        outer_startloc,
                        startloc,
                        slots,
                        5,
                        b5,
                        Err(err),
                        outer_startloc,
                    ));
                    return Err(err);
                },
            }
        }
    }
}

/// Marks the permutation of six parsers.
pub struct SeqAlt6<T1, T2, T3, T4, T5, T6> {
    p1: PhantomData<T1>,
    p2: PhantomData<T2>,
    p3: PhantomData<T3>,
    p4: PhantomData<T4>,
    p5: PhantomData<T5>,
    p6: PhantomData<T6>,
}

/// How many of six parsers have not succeeded yet.
pub open spec fn pending6<O1, O2, O3, O4, O5, O6>(slots: (Option<O1>, Option<O2>, Option<O3>,
    Option<O4>, Option<O5>, Option<O6>)) -> nat {
    (if slots.0 is None {
        1nat
    } else {
        0
    }) + (if slots.1 is None {
        1nat
    } else {
        0
    }) + (if slots.2 is None {
        1nat
    } else {
        0
    }) + (if slots.3 is None {
        1nat
    } else {
        0
    }) + (if slots.4 is None {
        1nat
    } else {
        0
    }) + (if slots.5 is None {
        1nat
    } else {
        0
    })
}

/// What a permutation of six parsers that started at `entry` may come to,
/// when it stands at `cur` with the values of `slots`, has tried there the
/// parsers before the one at `at`, and has noted `best`.
///
/// A parser that has a value is passed over. Where one of the others
/// succeeds, its value is kept and the parsers are tried anew from where it
/// left the cursor. Where it fails, its error is noted and the next is tried.
/// With all tried, the permutation returns the values if every parser has
/// one; else it fails with the error chosen, and the cursor is at `entry`.
pub open spec fn scan6<'a, I, E, O1, P1, T1, O2, P2, T2, O3, P3, T3, O4, P4, T4, O5, P5, T5, O6,
    P6, T6>(
    parsers: &(P1, P2, P3, P4, P5, P6),
    entry: &I,
    cur: &I,
    slots: (Option<O1>, Option<O2>, Option<O3>, Option<O4>, Option<O5>, Option<O6>),
    at: nat,
    best: Furthest<E>,
    res: Result<(O1, O2, O3, O4, O5, O6), E>,
    after: &I,
) -> bool where
    I: ?Sized + Sequence,
    E: ParserError,
    P1: Parser<'a, I, O1, E, T1>,
    P2: Parser<'a, I, O2, E, T2>,
    P3: Parser<'a, I, O3, E, T3>,
    P4: Parser<'a, I, O4, E, T4>,
    P5: Parser<'a, I, O5, E, T5>,
    P6: Parser<'a, I, O6, E, T6>,

    decreases pending6(slots), 6 - at,
{
    if at == 0 {
        if slots.0 is Some {
            scan6(parsers, entry, cur, slots, 1, best, res, after)
        } else {
            ||| exists|out: O1, next: &I|
                {
                    &&& #[trigger] parsers.0.outcome(cur, Ok(out), next)
                    &&& scan6(
                        parsers,
                        entry,
                        next,
                        (Some(out), slots.1, slots.2, slots.3, slots.4, slots.5),
                        0,
                        Furthest::none(),
                        res,
                        after,
                    )
                }
            ||| exists|err: E|
                {
                    &&& #[trigger] parsers.0.outcome(cur, Err(err), cur)
                    &&& scan6(parsers, entry, cur, slots, 1, best.noted(err), res, after)
                }
        }
    } else if at == 1 {
        if slots.1 is Some {
            scan6(parsers, entry, cur, slots, 2, best, res, after)
        } else {
            ||| exists|out: O2, next: &I|
                {
                    &&& #[trigger] parsers.1.outcome(cur, Ok(out), next)
                    &&& scan6(
                        parsers,
                        entry,
                        next,
                        (slots.0, Some(out), slots.2, slots.3, slots.4, slots.5),
                        0,
                        Furthest::none(),
                        res,
                        after,
                    )
                }
            ||| exists|err: E|
                {
                    &&& #[trigger] parsers.1.outcome(cur, Err(err), cur)
                    &&& scan6(parsers, entry, cur, slots, 2, best.noted(err), res, after)
                }
        }
    } else if at == 2 {
        if slots.2 is Some {
            scan6(parsers, entry, cur, slots, 3, best, res, after)
        } else {
            ||| exists|out: O3, next: &I|
                {
                    &&& #[trigger] parsers.2.outcome(cur, Ok(out), next)
                    &&& scan6(
                        parsers,
                        entry,
                        next,
                        (slots.0, slots.1, Some(out), slots.3, slots.4, slots.5),
                        0,
                        Furthest::none(),
                        res,
                        after,
                    )
                }
            ||| exists|err: E|
                {
                    &&& #[trigger] parsers.2.outcome(cur, Err(err), cur)
                    &&& scan6(parsers, entry, cur, slots, 3, best.noted(err), res, after)
                }
        }
    } else if at == 3 {
        if slots.3 is Some {
            scan6(parsers, entry, cur, slots, 4, best, res, after)
        } else {
            ||| exists|out: O4, next: &I|
                {
                    &&& #[trigger] parsers.3.outcome(cur, Ok(out), next)
                    &&& scan6(
                        parsers,
                        entry,
                        next,
                        (slots.0, slots.1, slots.2, Some(out), slots.4, slots.5),
                        0,
                        Furthest::none(),
                        res,
                        after,
                    )
                }
            ||| exists|err: E|
                {
                    &&& #[trigger] parsers.3.outcome(cur, Err(err), cur)
                    &&& scan6(parsers, entry, cur, slots, 4, best.noted(err), res, after)
                }
        }
    } else if at == 4 {
        if slots.4 is Some {
            scan6(parsers, entry, cur, slots, 5, best, res, after)
        } else {
            ||| exists|out: O5, next: &I|
                {
                    &&& #[trigger] parsers.4.outcome(cur, Ok(out), next)
                    &&& scan6(
                        parsers,
                        entry,
                        next,
                        (slots.0, slots.1, slots.2, slots.3, Some(out), slots.5),
                        0,
                        Furthest::none(),
                        res,
                        after,
                    )
                }
            ||| exists|err: E|
                {
                    &&& #[trigger] parsers.4.outcome(cur, Err(err), cur)
                    &&& scan6(parsers, entry, cur, slots, 5, best.noted(err), res, after)
                }
        }
    } else if at == 5 {
        if slots.5 is Some {
            scan6(parsers, entry, cur, slots, 6, best, res, after)
        } else {
            ||| exists|out: O6, next: &I|
                {
                    &&& #[trigger] parsers.5.outcome(cur, Ok(out), next)
                    &&& scan6(
                        parsers,
                        entry,
                        next,
                        (slots.0, slots.1, slots.2, slots.3, slots.4, Some(out)),
                        0,
                        Furthest::none(),
                        res,
                        after,
                    )
                }
            ||| exists|err: E|
                {
                    &&& #[trigger] parsers.5.outcome(cur, Err(err), cur)
                    &&& scan6(parsers, entry, cur, slots, 6, best.noted(err), res, after)
                }
        }
    } else if pending6(slots) == 0 {
        &&& after == cur
        &&& res == Ok::<(O1, O2, O3, O4, O5, O6), E>((slots.0.unwrap(), slots.1.unwrap(),
            slots.2.unwrap(), slots.3.unwrap(), slots.4.unwrap(), slots.5.unwrap()))
    } else {
        &&& after == entry
        &&& res matches Err(err) && best.err == Some(err)
    }
}

/// The permutation of six parsers.
impl<'a, I: ?Sized + Sequence, E: ParserError, O1, P1, T1, O2, P2, T2, O3, P3, T3, O4, P4, T4, O5,
    P5, T5, O6, P6, T6> Parser<
    'a,
    I,
    (O1, O2, O3, O4, O5, O6),
    E,
    SeqAlt6<T1, T2, T3, T4, T5, T6>,
> for Permutation<(P1, P2, P3, P4, P5, P6)> where
    P1: Parser<'a, I, O1, E, T1>,
    P2: Parser<'a, I, O2, E, T2>,
    P3: Parser<'a, I, O3, E, T3>,
    P4: Parser<'a, I, O4, E, T4>,
    P5: Parser<'a, I, O5, E, T5>,
    P6: Parser<'a, I, O6, E, T6>,
 {
    open spec fn ready(&self) -> bool {
        &&& self.0.0.ready()
        &&& self.0.1.ready()
        &&& self.0.2.ready()
        &&& self.0.3.ready()
        &&& self.0.4.ready()
        &&& self.0.5.ready()
    }

    open spec fn outcome(&self, before: &I, res: Result<(O1, O2, O3, O4, O5, O6), E>,
        after: &I) -> bool {
        scan6(&self.0, before, before, (None, None, None, None, None, None), 0, Furthest::none(),
            res, after)
    }

    fn fab(&self, input: &mut &'a I) -> (res: Result<(O1, O2, O3, O4, O5, O6), E>) {
        let outer_startloc = *input;
        let mut r1: Option<O1> = None;
        let mut r2: Option<O2> = None;
        let mut r3: Option<O3> = None;
        let mut r4: Option<O4> = None;
        let mut r5: Option<O5> = None;
        let mut r6: Option<O6> = None;
        proof {
            lemma_suffix_of_self(outer_startloc.items());
        }
        loop
            invariant
                self.ready(),
                outer_startloc == *old(input),
                is_suffix(input.items(), outer_startloc.items()),
                forall|res: Result<(O1, O2, O3, O4, O5, O6), E>, after: &I| #[trigger]
                    scan6(&self.0, outer_startloc, *input, (r1, r2, r3, r4, r5, r6), 0,
                        Furthest::none(), res, after)
                        ==> self.outcome(outer_startloc, res, after),
            decreases pending6((r1, r2, r3, r4, r5, r6)),
        {
            let startloc = *input;
            let mut best = Furthest::new();
            let ghost slots = (r1, r2, r3, r4, r5, r6);
            let ghost b0 = best;
            if r1.is_none() {
                match self.0.0.fab(input) {
                    Ok(out) => {
                        proof {
                            let next = *input;
                            assert(self.0.0.outcome(startloc, Ok(out), next));
                            lemma_suffix_of_suffix(
                                next.items(),
                                startloc.items(),
                                outer_startloc.items(),
                            );
                            assert forall|res: Result<(O1, O2, O3, O4, O5, O6), E>,
                                after: &I| #[trigger]
                                scan6(
                                    &self.0,
                                    outer_startloc,
                                    next,
                                    (Some(out), r2, r3, r4, r5, r6),
                                    0,
                                    Furthest::none(),
                                    res,
                                    after,
                                ) implies self.outcome(outer_startloc, res, after) by {
                                assert(scan6(
                                    &self.0,
                                    outer_startloc,
                                    startloc,
                                    slots,
                                    0,
                                    b0,
                                    res,
                                    after,
                                ));
                            }
                        }
                        r1 = Some(out);
                        continue ;
                    },
                    Err(err) => {
                        assert(self.0.0.outcome(startloc, Err(err), startloc));
                        best.note(err);
                        *input = startloc;
                    },
                }
            }
            let ghost b1 = best;
            assert(r1 is None ==> b1.err is Some);
            assert forall|res: Result<(O1, O2, O3, O4, O5, O6), E>, after: &I| #[trigger]
                scan6(&self.0, outer_startloc, startloc, slots, 1, b1, res, after) implies scan6(
                &self.0,
                outer_startloc,
                startloc,
                slots,
                0,
                b0,
                res,
                after,
            ) by {
            }
            if r2.is_none() {
                match self.0.1.fab(input) {
                    Ok(out) => {
                        proof {
                            let next = *input;
                            assert(self.0.1.outcome(startloc, Ok(out), next));
                            lemma_suffix_of_suffix(
                                next.items(),
                                startloc.items(),
                                outer_startloc.items(),
                            );
                            assert forall|res: Result<(O1, O2, O3, O4, O5, O6), E>,
                                after: &I| #[trigger]
                                scan6(
                                    &self.0,
                                    outer_startloc,
                                    next,
                                    (r1, Some(out), r3, r4, r5, r6),
                                    0,
                                    Furthest::none(),
                                    res,
                                    after,
                                ) implies self.outcome(outer_startloc, res, after) by {
                                assert(scan6(
                                    &self.0,
                                    outer_startloc,
                                    startloc,
                                    slots,
                                    1,
                                    b1,
                                    res,
                                    after,
                                ));
                            }
                        }
                        r2 = Some(out);
                        continue ;
                    },
                    Err(err) => {
                        assert(self.0.1.outcome(startloc, Err(err), startloc));
                        best.note(err);
                        *input = startloc;
                    },
                }
            }
            let ghost b2 = best;
            assert(r1 is None || r2 is None ==> b2.err is Some);
            assert forall|res: Result<(O1, O2, O3, O4, O5, O6), E>, after: &I| #[trigger]
                scan6(&self.0, outer_startloc, startloc, slots, 2, b2, res, after) implies scan6(
                &self.0,
                outer_startloc,
                startloc,
                slots,
                0,
                b0,
                res,
                after,
            ) by {
                assert(scan6(&self.0, outer_startloc, startloc, slots, 1, b1, res, after));
            }
            if r3.is_none() {
                match self.0.2.fab(input) {
                    Ok(out) => {
                        proof {
                            let next = *input;
                            assert(self.0.2.outcome(startloc, Ok(out), next));
                            lemma_suffix_of_suffix(
                                next.items(),
                                startloc.items(),
                                outer_startloc.items(),
                            );
                            assert forall|res: Result<(O1, O2, O3, O4, O5, O6), E>,
                                after: &I| #[trigger]
                                scan6(
                                    &self.0,
                                    outer_startloc,
                                    next,
                                    (r1, r2, Some(out), r4, r5, r6),
                                    0,
                                    Furthest::none(),
                                    res,
                                    after,
                                ) implies self.outcome(outer_startloc, res, after) by {
                                assert(scan6(
                                    &self.0,
                                    outer_startloc,
                                    startloc,
                                    slots,
                                    2,
                                    b2,
                                    res,
                                    after,
                                ));
                            }
                        }
                        r3 = Some(out);
                        continue ;
                    },
                    Err(err) => {
                        assert(self.0.2.outcome(startloc, Err(err), startloc));
                        best.note(err);
                        *input = startloc;
                    },
                }
            }
            let ghost b3 = best;
            assert(r1 is None || r2 is None || r3 is None ==> b3.err is Some);
            assert forall|res: Result<(O1, O2, O3, O4, O5, O6), E>, after: &I| #[trigger]
                scan6(&self.0, outer_startloc, startloc, slots, 3, b3, res, after) implies scan6(
                &self.0,
                outer_startloc,
                startloc,
                slots,
                0,
                b0,
                res,
                after,
            ) by {
                assert(scan6(&self.0, outer_startloc, startloc, slots, 2, b2, res, after));
            }
            if r4.is_none() {
                match self.0.3.fab(input) {
                    Ok(out) => {
                        proof {
                            let next = *input;
                            assert(self.0.3.outcome(startloc, Ok(out), next));
                            lemma_suffix_of_suffix(
                                next.items(),
                                startloc.items(),
                                outer_startloc.items(),
                            );
                            assert forall|res: Result<(O1, O2, O3, O4, O5, O6), E>,
                                after: &I| #[trigger]
                                scan6(
                                    &self.0,
                                    outer_startloc,
                                    next,
                                    (r1, r2, r3, Some(out), r5, r6),
                                    0,
                                    Furthest::none(),
                                    res,
                                    after,
                                ) implies self.outcome(outer_startloc, res, after) by {
                                assert(scan6(
                                    &self.0,
                                    outer_startloc,
                                    startloc,
                                    slots,
                                    3,
                                    b3,
                                    res,
                                    after,
                                ));
                            }
                        }
                        r4 = Some(out);
                        continue ;
                    },
                    Err(err) => {
                        assert(self.0.3.outcome(startloc, Err(err), startloc));
                        best.note(err);
                        *input = startloc;
                    },
                }
            }
            let ghost b4 = best;
            assert(r1 is None || r2 is None || r3 is None || r4 is None ==> b4.err is Some);
            assert forall|res: Result<(O1, O2, O3, O4, O5, O6), E>, after: &I| #[trigger]
                scan6(&self.0, outer_startloc, startloc, slots, 4, b4, res, after) implies scan6(
                &self.0,
                outer_startloc,
                startloc,
                slots,
                0,
                b0,
                res,
                after,
            ) by {
                assert(scan6(&self.0, outer_startloc, startloc, slots, 3, b3, res, after));
            }
            if r5.is_none() {
                match self.0.4.fab(input) {
                    Ok(out) => {
                        proof {
                            let next = *input;
                            assert(self.0.4.outcome(startloc, Ok(out), next));
                            lemma_suffix_of_suffix(
                                next.items(),
                                startloc.items(),
                                outer_startloc.items(),
                            );
                            assert forall|res: Result<(O1, O2, O3, O4, O5, O6), E>,
                                after: &I| #[trigger]
                                scan6(
                                    &self.0,
                                    outer_startloc,
                                    next,
                                    (r1, r2, r3, r4, Some(out), r6),
                                    0,
                                    Furthest::none(),
                                    res,
                                    after,
                                ) implies self.outcome(outer_startloc, res, after) by {
                                assert(scan6(
                                    &self.0,
                                    outer_startloc,
                                    startloc,
                                    slots,
                                    4,
                                    b4,
                                    res,
                                    after,
                                ));
                            }
                        }
                        r5 = Some(out);
                        continue ;
                    },
                    Err(err) => {
                        assert(self.0.4.outcome(startloc, Err(err), startloc));
                        best.note(err);
                        *input = startloc;
                    },
                }
            }
            let ghost b5 = best;
            assert(r1 is None || r2 is None || r3 is None || r4 is None || r5 is None
                ==> b5.err is Some);
            assert forall|res: Result<(O1, O2, O3, O4, O5, O6), E>, after: &I| #[trigger]
                scan6(&self.0, outer_startloc, startloc, slots, 5, b5, res, after) implies scan6(
                &self.0,
                outer_startloc,
                startloc,
                slots,
                0,
                b0,
                res,
                after,
            ) by {
                assert(scan6(&self.0, outer_startloc, startloc, slots, 4, b4, res, after));
            }
            if r6.is_none() {
                match self.0.5.fab(input) {
                    Ok(out) => {
                        proof {
                            let next = *input;
                            assert(self.0.5.outcome(startloc, Ok(out), next));
                            lemma_suffix_of_suffix(
                                next.items(),
                                startloc.items(),
                                outer_startloc.items(),
                            );
                            assert forall|res: Result<(O1, O2, O3, O4, O5, O6), E>,
                                after: &I| #[trigger]
                                scan6(
                                    &self.0,
                                    outer_startloc,
                                    next,
                                    (r1, r2, r3, r4, r5, Some(out)),
                                    0,
                                    Furthest::none(),
                                    res,
                                    after,
                                ) implies self.outcome(outer_startloc, res, after) by {
                                assert(scan6(
                                    &self.0,
                                    outer_startloc,
                                    startloc,
                                    slots,
                                    5,
                                    b5,
                                    res,
                                    after,
                                ));
                            }
                        }
                        r6 = Some(out);
                        continue ;
                    },
                    Err(err) => {
                        assert(self.0.5.outcome(startloc, Err(err), startloc));
                        best.note(err);
                        *input = startloc;
                    },
                }
            }
            let ghost b6 = best;
            assert(r1 is None || r2 is None || r3 is None || r4 is None || r5 is None
                || r6 is None ==> b6.err is Some);
            assert forall|res: Result<(O1, O2, O3, O4, O5, O6), E>, after: &I| #[trigger]
                scan6(&self.0, outer_startloc, startloc, slots, 6, b6, res, after) implies scan6(
                &self.0,
                outer_startloc,
                startloc,
                slots,
                0,
                b0,
                res,
                after,
            ) by {
                assert(scan6(&self.0, outer_startloc, startloc, slots, 5, b5, res, after));
            }
            match (r1, r2, r3, r4, r5, r6) {
                (Some(o1), Some(o2), Some(o3), Some(o4), Some(o5), Some(o6)) => {
                    assert(scan6(
                        &self.0,
                        outer_startloc,
                        startloc,
                        slots,
                        6,
                        b6,
                        Ok((o1, o2, o3, o4, o5, o6)),
                        startloc,
                    ));
                    return Ok((o1, o2, o3, o4, o5, o6));
                },
                _ => {
                    *input = outer_startloc;
                    let err = best.into_error();
                    assert(scan6(
                        &self.0,
                        outer_startloc,
                        startloc,
                        slots,
                        6,
                        b6,
                        Err(err),
                        outer_startloc,
                    ));
                    return Err(err);
                },
            }
        }
    }
}

/// Marks the permutation of seven parsers.
pub struct SeqAlt7<T1, T2, T3, T4, T5, T6, T7> {
    p1: PhantomData<T1>,
    p2: PhantomData<T2>,
    p3: PhantomData<T3>,
    p4: PhantomData<T4>,
    p5: PhantomData<T5>,
    p6: PhantomData<T6>,
    p7: PhantomData<T7>,
}

/// How many of seven parsers have not succeeded yet.
pub open spec fn pending7<O1, O2, O3, O4, O5, O6, O7>(slots: (Option<O1>, Option<O2>, Option<O3>,
    Option<O4>, Option<O5>, Option<O6>, Option<O7>)) -> nat {
    (if slots.0 is None {
        1nat
    } else {
        0
    }) + (if slots.1 is None {
        1nat
    } else {
        0
    }) + (if slots.2 is None {
        1nat
    } else {
        0
    }) + (if slots.3 is None {
        1nat
    } else {
        0
    }) + (if slots.4 is None {
        1nat
    } else {
        0
    }) + (if slots.5 is None {
        1nat
    } else {
        0
    }) + (if slots.6 is None {
        1nat
    } else {
        0
    })
}

/// What a permutation of seven parsers that started at `entry` may come to,
/// when it stands at `cur` with the values of `slots`, has tried there the
/// parsers before the one at `at`, and has noted `best`.
///
/// A parser that has a value is passed over. Where one of the others
/// succeeds, its value is kept and the parsers are tried anew from where it
/// left the cursor. Where it fails, its error is noted and the next is tried.
/// With all tried, the permutation returns the values if every parser has
/// one; else it fails with the error chosen, and the cursor is at `entry`.
pub open spec fn scan7<'a, I, E, O1, P1, T1, O2, P2, T2, O3, P3, T3, O4, P4, T4, O5, P5, T5, O6,
    P6, T6, O7, P7, T7>(
    parsers: &(P1, P2, P3, P4, P5, P6, P7),
    entry: &I,
    cur: &I,
    slots: (Option<O1>, Option<O2>, Option<O3>, Option<O4>, Option<O5>, Option<O6>, Option<O7>),
    at: nat,
    best: Furthest<E>,
    res: Result<(O1, O2, O3, O4, O5, O6, O7), E>,
    after: &I,
) -> bool where
    I: ?Sized + Sequence,
    E: ParserError,
    P1: Parser<'a, I, O1, E, T1>,
    P2: Parser<'a, I, O2, E, T2>,
    P3: Parser<'a, I, O3, E, T3>,
    P4: Parser<'a, I, O4, E, T4>,
    P5: Parser<'a, I, O5, E, T5>,
    P6: Parser<'a, I, O6, E, T6>,
    P7: Parser<'a, I, O7, E, T7>,

    decreases pending7(slots), 7 - at,
{
    if at == 0 {
        if slots.0 is Some {
            scan7(parsers, entry, cur, slots, 1, best, res, after)
        } else {
            ||| exists|out: O1, next: &I|
                {
                    &&& #[trigger] parsers.0.outcome(cur, Ok(out), next)
                    &&& scan7(
                        parsers,
                        entry,
                        next,
                        (Some(out), slots.1, slots.2, slots.3, slots.4, slots.5, slots.6),
                        0,
                        Furthest::none(),
                        res,
                        after,
                    )
                }
            ||| exists|err: E|
                {
                    &&& #[trigger] parsers.0.outcome(cur, Err(err), cur)
                    &&& scan7(parsers, entry, cur, slots, 1, best.noted(err), res, after)
                }
        }
    } else if at == 1 {
        if slots.1 is Some {
            scan7(parsers, entry, cur, slots, 2, best, res, after)
        } else {
            ||| exists|out: O2, next: &I|
                {
                    &&& #[trigger] parsers.1.outcome(cur, Ok(out), next)
                    &&& scan7(
                        parsers,
                        entry,
                        next,
                        (slots.0, Some(out), slots.2, slots.3, slots.4, slots.5, slots.6),
                        0,
                        Furthest::none(),
                        res,
                        after,
                    )
                }
            ||| exists|err: E|
                {
                    &&& #[trigger] parsers.1.outcome(cur, Err(err), cur)
                    &&& scan7(parsers, entry, cur, slots, 2, best.noted(err), res, after)
                }
        }
    } else if at == 2 {
        if slots.2 is Some {
            scan7(parsers, entry, cur, slots, 3, best, res, after)
        } else {
            ||| exists|out: O3, next: &I|
                {
                    &&& #[trigger] parsers.2.outcome(cur, Ok(out), next)
                    &&& scan7(
                        parsers,
                        entry,
                        next,
                        (slots.0, slots.1, Some(out), slots.3, slots.4, slots.5, slots.6),
                        0,
                        Furthest::none(),
                        res,
                        after,
                    )
                }
            ||| exists|err: E|
                {
                    &&& #[trigger] parsers.2.outcome(cur, Err(err), cur)
                    &&& scan7(parsers, entry, cur, slots, 3, best.noted(err), res, after)
                }
        }
    } else if at == 3 {
        if slots.3 is Some {
            scan7(parsers, entry, cur, slots, 4, best, res, after)
        } else {
            ||| exists|out: O4, next: &I|
                {
                    &&& #[trigger] parsers.3.outcome(cur, Ok(out), next)
                    &&& scan7(
                        parsers,
                        entry,
                        next,
                        (slots.0, slots.1, slots.2, Some(out), slots.4, slots.5, slots.6),
                        0,
                        Furthest::none(),
                        res,
                        after,
                    )
                }
            ||| exists|err: E|
                {
                    &&& #[trigger] parsers.3.outcome(cur, Err(err), cur)
                    &&& scan7(parsers, entry, cur, slots, 4, best.noted(err), res, after)
                }
        }
    } else if at == 4 {
        if slots.4 is Some {
            scan7(parsers, entry, cur, slots, 5, best, res, after)
        } else {
            ||| exists|out: O5, next: &I|
                {
                    &&& #[trigger] parsers.4.outcome(cur, Ok(out), next)
                    &&& scan7(
                        parsers,
                        entry,
                        next,
                        (slots.0, slots.1, slots.2, slots.3, Some(out), slots.5, slots.6),
                        0,
                        Furthest::none(),
                        res,
                        after,
                    )
                }
            ||| exists|err: E|
                {
                    &&& #[trigger] parsers.4.outcome(cur, Err(err), cur)
                    &&& scan7(parsers, entry, cur, slots, 5, best.noted(err), res, after)
                }
        }
    } else if at == 5 {
        if slots.5 is Some {
            scan7(parsers, entry, cur, slots, 6, best, res, after)
        } else {
            ||| exists|out: O6, next: &I|
                {
                    &&& #[trigger] parsers.5.outcome(cur, Ok(out), next)
                    &&& scan7(
                        parsers,
                        entry,
                        next,
                        (slots.0, slots.1, slots.2, slots.3, slots.4, Some(out), slots.6),
                        0,
                        Furthest::none(),
                        res,
                        after,
                    )
                }
            ||| exists|err: E|
                {
                    &&& #[trigger] parsers.5.outcome(cur, Err(err), cur)
                    &&& scan7(parsers, entry, cur, slots, 6, best.noted(err), res, after)
                }
        }
    } else if at == 6 {
        if slots.6 is Some {
            scan7(parsers, entry, cur, slots, 7, best, res, after)
        } else {
            ||| exists|out: O7, next: &I|
                {
                    &&& #[trigger] parsers.6.outcome(cur, Ok(out), next)
                    &&& scan7(
                        parsers,
                        entry,
                        next,
                        (slots.0, slots.1, slots.2, slots.3, slots.4, slots.5, Some(out)),
                        0,
                        Furthest::none(),
                        res,
                        after,
                    )
                }
            ||| exists|err: E|
                {
                    &&& #[trigger] parsers.6.outcome(cur, Err(err), cur)
                    &&& scan7(parsers, entry, cur, slots, 7, best.noted(err), res, after)
                }
        }
    } else if pending7(slots) == 0 {
        &&& after == cur
        &&& res == Ok::<(O1, O2, O3, O4, O5, O6, O7), E>((slots.0.unwrap(), slots.1.unwrap(),
            slots.2.unwrap(), slots.3.unwrap(), slots.4.unwrap(), slots.5.unwrap(),
            slots.6.unwrap()))
    } else {
        &&& after == entry
        &&& res matches Err(err) && best.err == Some(err)
    }
}

/// The permutation of seven parsers.
impl<'a, I: ?Sized + Sequence, E: ParserError, O1, P1, T1, O2, P2, T2, O3, P3, T3, O4, P4, T4, O5,
    P5, T5, O6, P6, T6, O7, P7, T7> Parser<
    'a,
    I,
    (O1, O2, O3, O4, O5, O6, O7),
    E,
    SeqAlt7<T1, T2, T3, T4, T5, T6, T7>,
> for Permutation<(P1, P2, P3, P4, P5, P6, P7)> where
    P1: Parser<'a, I, O1, E, T1>,
    P2: Parser<'a, I, O2, E, T2>,
    P3: Parser<'a, I, O3, E, T3>,
    P4: Parser<'a, I, O4, E, T4>,
    P5: Parser<'a, I, O5, E, T5>,
    P6: Parser<'a, I, O6, E, T6>,
    P7: Parser<'a, I, O7, E, T7>,
 {
    open spec fn ready(&self) -> bool {
        &&& self.0.0.ready()
        &&& self.0.1.ready()
        &&& self.0.2.ready()
        &&& self.0.3.ready()
        &&& self.0.4.ready()
        &&& self.0.5.ready()
        &&& self.0.6.ready()
    }

    open spec fn outcome(&self, before: &I, res: Result<(O1, O2, O3, O4, O5, O6, O7), E>,
        after: &I) -> bool {
        scan7(&self.0, before, before, (None, None, None, None, None, None, None), 0,
            Furthest::none(), res, after)
    }

    fn fab(&self, input: &mut &'a I) -> (res: Result<(O1, O2, O3, O4, O5, O6, O7), E>) {
        let outer_startloc = *input;
        let mut r1: Option<O1> = None;
        let mut r2: Option<O2> = None;
        let mut r3: Option<O3> = None;
        let mut r4: Option<O4> = None;
        let mut r5: Option<O5> = None;
        let mut r6: Option<O6> = None;
        let mut r7: Option<O7> = None;
        proof {
            lemma_suffix_of_self(outer_startloc.items());
        }
        loop
            invariant
                self.ready(),
                outer_startloc == *old(input),
                is_suffix(input.items(), outer_startloc.items()),
                forall|res: Result<(O1, O2, O3, O4, O5, O6, O7), E>, after: &I| #[trigger]
                    scan7(&self.0, outer_startloc, *input, (r1, r2, r3, r4, r5, r6, r7), 0,
                        Furthest::none(), res, after)
                        ==> self.outcome(outer_startloc, res, after),
            decreases pending7((r1, r2, r3, r4, r5, r6, r7)),
        {
            let startloc = *input;
            let mut best = Furthest::new();
            let ghost slots = (r1, r2, r3, r4, r5, r6, r7);
            let ghost b0 = best;
            if r1.is_none() {
                match self.0.0.fab(input) {
                    Ok(out) => {
                        proof {
                            let next = *input;
                            assert(self.0.0.outcome(startloc, Ok(out), next));
                            lemma_suffix_of_suffix(
                                next.items(),
                                startloc.items(),
                                outer_startloc.items(),
                            );
                            assert forall|res: Result<(O1, O2, O3, O4, O5, O6, O7), E>,
                                after: &I| #[trigger]
                                scan7(
                                    &self.0,
                                    outer_startloc,
                                    next,
                                    (Some(out), r2, r3, r4, r5, r6, r7),
                                    0,
                                    Furthest::none(),
                                    res,
                                    after,
                                ) implies self.outcome(outer_startloc, res, after) by {
                                assert(scan7(
                                    &self.0,
                                    outer_startloc,
                                    startloc,
                                    slots,
                                    0,
                                    b0,
                                    res,
                                    after,
                                ));
                            }
                        }
                        r1 = Some(out);
                        continue ;
                    },
                    Err(err) => {
                        assert(self.0.0.outcome(startloc, Err(err), startloc));
                        best.note(err);
                        *input = startloc;
                    },
                }
            }
            let ghost b1 = best;
            assert(r1 is None ==> b1.err is Some);
            assert forall|res: Result<(O1, O2, O3, O4, O5, O6, O7), E>, after: &I| #[trigger]
                scan7(&self.0, outer_startloc, startloc, slots, 1, b1, res, after) implies scan7(
                &self.0,
                outer_startloc,
                startloc,
                slots,
                0,
                b0,
                res,
                after,
            ) by {
            }
            if r2.is_none() {
                match self.0.1.fab(input) {
                    Ok(out) => {
                        proof {
                            let next = *input;
                            assert(self.0.1.outcome(startloc, Ok(out), next));
                            lemma_suffix_of_suffix(
                                next.items(),
                                startloc.items(),
                                outer_startloc.items(),
                            );
                            assert forall|res: Result<(O1, O2, O3, O4, O5, O6, O7), E>,
                                after: &I| #[trigger]
                                scan7(
                                    &self.0,
                                    outer_startloc,
                                    next,
                                    (r1, Some(out), r3, r4, r5, r6, r7),
                                    0,
                                    Furthest::none(),
                                    res,
                                    after,
                                ) implies self.outcome(outer_startloc, res, after) by {
                                assert(scan7(
                                    &self.0,
                                    outer_startloc,
                                    startloc,
                                    slots,
                                    1,
                                    b1,
                                    res,
                                    after,
                                ));
                            }
                        }
                        r2 = Some(out);
                        continue ;
                    },
                    Err(err) => {
                        assert(self.0.1.outcome(startloc, Err(err), startloc));
                        best.note(err);
                        *input = startloc;
                    },
                }
            }
            let ghost b2 = best;
            assert(r1 is None || r2 is None ==> b2.err is Some);
            assert forall|res: Result<(O1, O2, O3, O4, O5, O6, O7), E>, after: &I| #[trigger]
                scan7(&self.0, outer_startloc, startloc, slots, 2, b2, res, after) implies scan7(
                &self.0,
                outer_startloc,
                startloc,
                slots,
                0,
                b0,
                res,
                after,
            ) by {
                assert(scan7(&self.0, outer_startloc, startloc, slots, 1, b1, res, after));
            }
            if r3.is_none() {
                match self.0.2.fab(input) {
                    Ok(out) => {
                        proof {
                            let next = *input;
                            assert(self.0.2.outcome(startloc, Ok(out), next));
                            lemma_suffix_of_suffix(
                                next.items(),
                                startloc.items(),
                                outer_startloc.items(),
                            );
                            assert forall|res: Result<(O1, O2, O3, O4, O5, O6, O7), E>,
                                after: &I| #[trigger]
                                scan7(
                                    &self.0,
                                    outer_startloc,
                                    next,
                                    (r1, r2, Some(out), r4, r5, r6, r7),
                                    0,
                                    Furthest::none(),
                                    res,
                                    after,
                                ) implies self.outcome(outer_startloc, res, after) by {
                                assert(scan7(
                                    &self.0,
                                    outer_startloc,
                                    startloc,
                                    slots,
                                    2,
                                    b2,
                                    res,
                                    after,
                                ));
                            }
                        }
                        r3 = Some(out);
                        continue ;
                    },
                    Err(err) => {
                        assert(self.0.2.outcome(startloc, Err(err), startloc));
                        best.note(err);
                        *input = startloc;
                    },
                }
            }
            let ghost b3 = best;
            assert(r1 is None || r2 is None || r3 is None ==> b3.err is Some);
            assert forall|res: Result<(O1, O2, O3, O4, O5, O6, O7), E>, after: &I| #[trigger]
                scan7(&self.0, outer_startloc, startloc, slots, 3, b3, res, after) implies scan7(
                &self.0,
                outer_startloc,
                startloc,
                slots,
                0,
                b0,
                res,
                after,
            ) by {
                assert(scan7(&self.0, outer_startloc, startloc, slots, 2, b2, res, after));
            }
            if r4.is_none() {
                match self.0.3.fab(input) {
                    Ok(out) => {
                        proof {
                            let next = *input;
                            assert(self.0.3.outcome(startloc, Ok(out), next));
                            lemma_suffix_of_suffix(
                                next.items(),
                                startloc.items(),
                                outer_startloc.items(),
                            );
                            assert forall|res: Result<(O1, O2, O3, O4, O5, O6, O7), E>,
                                after: &I| #[trigger]
                                scan7(
                                    &self.0,
                                    outer_startloc,
                                    next,
                                    (r1, r2, r3, Some(out), r5, r6, r7),
                                    0,
                                    Furthest::none(),
                                    res,
                                    after,
                                ) implies self.outcome(outer_startloc, res, after) by {
                                assert(scan7(
                                    &self.0,
                                    outer_startloc,
                                    startloc,
                                    slots,
                                    3,
                                    b3,
                                    res,
                                    after,
                                ));
                            }
                        }
                        r4 = Some(out);
                        continue ;
                    },
                    Err(err) => {
                        assert(self.0.3.outcome(startloc, Err(err), startloc));
                        best.note(err);
                        *input = startloc;
                    },
                }
            }
            let ghost b4 = best;
            assert(r1 is None || r2 is None || r3 is None || r4 is None ==> b4.err is Some);
            assert forall|res: Result<(O1, O2, O3, O4, O5, O6, O7), E>, after: &I| #[trigger]
                scan7(&self.0, outer_startloc, startloc, slots, 4, b4, res, after) implies scan7(
                &self.0,
                outer_startloc,
                startloc,
                slots,
                0,
                b0,
                res,
                after,
            ) by {
                assert(scan7(&self.0, outer_startloc, startloc, slots, 3, b3, res, after));
            }
            if r5.is_none() {
                match self.0.4.fab(input) {
                    Ok(out) => {
                        proof {
                            let next = *input;
                            assert(self.0.4.outcome(startloc, Ok(out), next));
                            lemma_suffix_of_suffix(
                                next.items(),
                                startloc.items(),
                                outer_startloc.items(),
                            );
                            assert forall|res: Result<(O1, O2, O3, O4, O5, O6, O7), E>,
                                after: &I| #[trigger]
                                scan7(
                                    &self.0,
                                    outer_startloc,
                                    next,
                                    (r1, r2, r3, r4, Some(out), r6, r7),
                                    0,
                                    Furthest::none(),
                                    res,
                                    after,
                                ) implies self.outcome(outer_startloc, res, after) by {
                                assert(scan7(
                                    &self.0,
                                    outer_startloc,
                                    startloc,
                                    slots,
                                    4,
                                    b4,
                                    res,
                                    after,
                                ));
                            }
                        }
                        r5 = Some(out);
                        continue ;
                    },
                    Err(err) => {
                        assert(self.0.4.outcome(startloc, Err(err), startloc));
                        best.note(err);
                        *input = startloc;
                    },
                }
            }
            let ghost b5 = best;
            assert(r1 is None || r2 is None || r3 is None || r4 is None || r5 is None
                ==> b5.err is Some);
            assert forall|res: Result<(O1, O2, O3, O4, O5, O6, O7), E>, after: &I| #[trigger]
                scan7(&self.0, outer_startloc, startloc, slots, 5, b5, res, after) implies scan7(
                &self.0,
                outer_startloc,
                startloc,
                slots,
                0,
                b0,
                res,
                after,
            ) by {
                assert(scan7(&self.0, outer_startloc, startloc, slots, 4, b4, res, after));
            }
            if r6.is_none() {
                match self.0.5.fab(input) {
                    Ok(out) => {
                        proof {
                            let next = *input;
                            assert(self.0.5.outcome(startloc, Ok(out), next));
                            lemma_suffix_of_suffix(
                                next.items(),
                                startloc.items(),
                                outer_startloc.items(),
                            );
                            assert forall|res: Result<(O1, O2, O3, O4, O5, O6, O7), E>,
                                after: &I| #[trigger]
                                scan7(
                                    &self.0,
                                    outer_startloc,
                                    next,
                                    (r1, r2, r3, r4, r5, Some(out), r7),
                                    0,
                                    Furthest::none(),
                                    res,
                                    after,
                                ) implies self.outcome(outer_startloc, res, after) by {
                                assert(scan7(
                                    &self.0,
                                    outer_startloc,
                                    startloc,
                                    slots,
                                    5,
                                    b5,
                                    res,
                                    after,
                                ));
                            }
                        }
                        r6 = Some(out);
                        continue ;
                    },
                    Err(err) => {
                        assert(self.0.5.outcome(startloc, Err(err), startloc));
                        best.note(err);
                        *input = startloc;
                    },
                }
            }
            let ghost b6 = best;
            assert(r1 is None || r2 is None || r3 is None || r4 is None || r5 is None
                || r6 is None ==> b6.err is Some);
            assert forall|res: Result<(O1, O2, O3, O4, O5, O6, O7), E>, after: &I| #[trigger]
                scan7(&self.0, outer_startloc, startloc, slots, 6, b6, res, after) implies scan7(
                &self.0,
                outer_startloc,
                startloc,
                slots,
                0,
                b0,
                res,
                after,
            ) by {
                assert(scan7(&self.0, outer_startloc, startloc, slots, 5, b5, res, after));
            }
            if r7.is_none() {
                match self.0.6.fab(input) {
                    Ok(out) => {
                        proof {
                            let next = *input;
                            assert(self.0.6.outcome(startloc, Ok(out), next));
                            lemma_suffix_of_suffix(
                                next.items(),
                                startloc.items(),
                                outer_startloc.items(),
                            );
                            assert forall|res: Result<(O1, O2, O3, O4, O5, O6, O7), E>,
                                after: &I| #[trigger]
                                scan7(
                                    &self.0,
                                    outer_startloc,
                                    next,
                                    (r1, r2, r3, r4, r5, r6, Some(out)),
                                    0,
                                    Furthest::none(),
                                    res,
                                    after,
                                ) implies self.outcome(outer_startloc, res, after) by {
                                assert(scan7(
                                    &self.0,
                                    outer_startloc,
                                    startloc,
                                    slots,
                                    6,
                                    b6,
                                    res,
                                    after,
                                ));
                            }
                        }
                        r7 = Some(out);
                        continue ;
                    },
                    Err(err) => {
                        assert(self.0.6.outcome(startloc, Err(err), startloc));
                        best.note(err);
                        *input = startloc;
                    },
                }
            }
            let ghost b7 = best;
            assert(r1 is None || r2 is None || r3 is None || r4 is None || r5 is None
                || r6 is None || r7 is None ==> b7.err is Some);
            assert forall|res: Result<(O1, O2, O3, O4, O5, O6, O7), E>, after: &I| #[trigger]
                scan7(&self.0, outer_startloc, startloc, slots, 7, b7, res, after) implies scan7(
                &self.0,
                outer_startloc,
                startloc,
                slots,
                0,
                b0,
                res,
                after,
            ) by {
                assert(scan7(&self.0, outer_startloc, startloc, slots, 6, b6, res, after));
            }
            match (r1, r2, r3, r4, r5, r6, r7) {
                (Some(o1), Some(o2), Some(o3), Some(o4), Some(o5), Some(o6), Some(o7)) => {
                    assert(scan7(
                        &self.0,
                        outer_startloc,
                        startloc,
                        slots,
                        7,
                        b7,
                        Ok((o1, o2, o3, o4, o5, o6, o7)),
                        startloc,
                    ));
                    return Ok((o1, o2, o3, o4, o5, o6, o7));
                },
                _ => {
                    *input = outer_startloc;
                    let err = best.into_error();
                    assert(scan7(
                        &self.0,
                        outer_startloc,
                        startloc,
                        slots,
                        7,
                        b7,
                        Err(err),
                        outer_startloc,
                    ));
                    return Err(err);
                },
            }
        }
    }
}

/// Marks the permutation of eight parsers.
pub struct SeqAlt8<T1, T2, T3, T4, T5, T6, T7, T8> {
    p1: PhantomData<T1>,
    p2: PhantomData<T2>,
    p3: PhantomData<T3>,
    p4: PhantomData<T4>,
    p5: PhantomData<T5>,
    p6: PhantomData<T6>,
    p7: PhantomData<T7>,
    p8: PhantomData<T8>,
}

/// How many of eight parsers have not succeeded yet.
pub open spec fn pending8<O1, O2, O3, O4, O5, O6, O7, O8>(slots: (Option<O1>, Option<O2>,
    Option<O3>, Option<O4>, Option<O5>, Option<O6>, Option<O7>, Option<O8>)) -> nat {
    (if slots.0 is None {
        1nat
    } else {
        0
    }) + (if slots.1 is None {
        1nat
    } else {
        0
    }) + (if slots.2 is None {
        1nat
    } else {
        0
    }) + (if slots.3 is None {
        1nat
    } else {
        0
    }) + (if slots.4 is None {
        1nat
    } else {
        0
    }) + (if slots.5 is None {
        1nat
    } else {
        0
    }) + (if slots.6 is None {
        1nat
    } else {
        0
    }) + (if slots.7 is None {
        1nat
    } else {
        0
    })
}

/// What a permutation of eight parsers that started at `entry` may come to,
/// when it stands at `cur` with the values of `slots`, has tried there the
/// parsers before the one at `at`, and has noted `best`.
///
/// A parser that has a value is passed over. Where one of the others
/// succeeds, its value is kept and the parsers are tried anew from where it
/// left the cursor. Where it fails, its error is noted and the next is tried.
/// With all tried, the permutation returns the values if every parser has
/// one; else it fails with the error chosen, and the cursor is at `entry`.
pub open spec fn scan8<'a, I, E, O1, P1, T1, O2, P2, T2, O3, P3, T3, O4, P4, T4, O5, P5, T5, O6,
    P6, T6, O7, P7, T7, O8, P8, T8>(
    parsers: &(P1, P2, P3, P4, P5, P6, P7, P8),
    entry: &I,
    cur: &I,
    slots: (Option<O1>, Option<O2>, Option<O3>, Option<O4>, Option<O5>, Option<O6>, Option<O7>,
        Option<O8>),
    at: nat,
    best: Furthest<E>,
    res: Result<(O1, O2, O3, O4, O5, O6, O7, O8), E>,
    after: &I,
) -> bool where
    I: ?Sized + Sequence,
    E: ParserError,
    P1: Parser<'a, I, O1, E, T1>,
    P2: Parser<'a, I, O2, E, T2>,
    P3: Parser<'a, I, O3, E, T3>,
    P4: Parser<'a, I, O4, E, T4>,
    P5: Parser<'a, I, O5, E, T5>,
    P6: Parser<'a, I, O6, E, T6>,
    P7: Parser<'a, I, O7, E, T7>,
    P8: Parser<'a, I, O8, E, T8>,

    decreases pending8(slots), 8 - at,
{
    if at == 0 {
        if slots.0 is Some {
            scan8(parsers, entry, cur, slots, 1, best, res, after)
        } else {
            ||| exists|out: O1, next: &I|
                {
                    &&& #[trigger] parsers.0.outcome(cur, Ok(out), next)
                    &&& scan8(
                        parsers,
                        entry,
                        next,
                        (Some(out), slots.1, slots.2, slots.3, slots.4, slots.5, slots.6, slots.7),
                        0,
                        Furthest::none(),
                        res,
                        after,
                    )
                }
            ||| exists|err: E|
                {
                    &&& #[trigger] parsers.0.outcome(cur, Err(err), cur)
                    &&& scan8(parsers, entry, cur, slots, 1, best.noted(err), res, after)
                }
        }
    } else if at == 1 {
        if slots.1 is Some {
            scan8(parsers, entry, cur, slots, 2, best, res, after)
        } else {
            ||| exists|out: O2, next: &I|
                {
                    &&& #[trigger] parsers.1.outcome(cur, Ok(out), next)
                    &&& scan8(
                        parsers,
                        entry,
                        next,
                        (slots.0, Some(out), slots.2, slots.3, slots.4, slots.5, slots.6, slots.7),
                        0,
                        Furthest::none(),
                        res,
                        after,
                    )
                }
            ||| exists|err: E|
                {
                    &&& #[trigger] parsers.1.outcome(cur, Err(err), cur)
                    &&& scan8(parsers, entry, cur, slots, 2, best.noted(err), res, after)
                }
        }
    } else if at == 2 {
        if slots.2 is Some {
            scan8(parsers, entry, cur, slots, 3, best, res, after)
        } else {
            ||| exists|out: O3, next: &I|
                {
                    &&& #[trigger] parsers.2.outcome(cur, Ok(out), next)
                    &&& scan8(
                        parsers,
                        entry,
                        next,
                        (slots.0, slots.1, Some(out), slots.3, slots.4, slots.5, slots.6, slots.7),
                        0,
                        Furthest::none(),
                        res,
                        after,
                    )
                }
            ||| exists|err: E|
                {
                    &&& #[trigger] parsers.2.outcome(cur, Err(err), cur)
                    &&& scan8(parsers, entry, cur, slots, 3, best.noted(err), res, after)
                }
        }
    } else if at == 3 {
        if slots.3 is Some {
            scan8(parsers, entry, cur, slots, 4, best, res, after)
        } else {
            ||| exists|out: O4, next: &I|
                {
                    &&& #[trigger] parsers.3.outcome(cur, Ok(out), next)
                    &&& scan8(
                        parsers,
                        entry,
                        next,
                        (slots.0, slots.1, slots.2, Some(out), slots.4, slots.5, slots.6, slots.7),
                        0,
                        Furthest::none(),
                        res,
                        after,
                    )
                }
            ||| exists|err: E|
                {
                    &&& #[trigger] parsers.3.outcome(cur, Err(err), cur)
                    &&& scan8(parsers, entry, cur, slots, 4, best.noted(err), res, after)
                }
        }
    } else if at == 4 {
        if slots.4 is Some {
            scan8(parsers, entry, cur, slots, 5, best, res, after)
        } else {
            ||| exists|out: O5, next: &I|
                {
                    &&& #[trigger] parsers.4.outcome(cur, Ok(out), next)
                    &&& scan8(
                        parsers,
                        entry,
                        next,
                        (slots.0, slots.1, slots.2, slots.3, Some(out), slots.5, slots.6, slots.7),
                        0,
                        Furthest::none(),
                        res,
                        after,
                    )
                }
            ||| exists|err: E|
                {
                    &&& #[trigger] parsers.4.outcome(cur, Err(err), cur)
                    &&& scan8(parsers, entry, cur, slots, 5, best.noted(err), res, after)
                }
        }
    } else if at == 5 {
        if slots.5 is Some {
            scan8(parsers, entry, cur, slots, 6, best, res, after)
        } else {
            ||| exists|out: O6, next: &I|
                {
                    &&& #[trigger] parsers.5.outcome(cur, Ok(out), next)
                    &&& scan8(
                        parsers,
                        entry,
                        next,
                        (slots.0, slots.1, slots.2, slots.3, slots.4, Some(out), slots.6, slots.7),
                        0,
                        Furthest::none(),
                        res,
                        after,
                    )
                }
            ||| exists|err: E|
                {
                    &&& #[trigger] parsers.5.outcome(cur, Err(err), cur)
                    &&& scan8(parsers, entry, cur, slots, 6, best.noted(err), res, after)
                }
        }
    } else if at == 6 {
        if slots.6 is Some {
            scan8(parsers, entry, cur, slots, 7, best, res, after)
        } else {
            ||| exists|out: O7, next: &I|
                {
                    &&& #[trigger] parsers.6.outcome(cur, Ok(out), next)
                    &&& scan8(
                        parsers,
                        entry,
                        next,
                        (slots.0, slots.1, slots.2, slots.3, slots.4, slots.5, Some(out), slots.7),
                        0,
                        Furthest::none(),
                        res,
                        after,
                    )
                }
            ||| exists|err: E|
                {
                    &&& #[trigger] parsers.6.outcome(cur, Err(err), cur)
                    &&& scan8(parsers, entry, cur, slots, 7, best.noted(err), res, after)
                }
        }
    } else if at == 7 {
        if slots.7 is Some {
            scan8(parsers, entry, cur, slots, 8, best, res, after)
        } else {
            ||| exists|out: O8, next: &I|
                {
                    &&& #[trigger] parsers.7.outcome(cur, Ok(out), next)
                    &&& scan8(
                        parsers,
                        entry,
                        next,
                        (slots.0, slots.1, slots.2, slots.3, slots.4, slots.5, slots.6, Some(out)),
                        0,
                        Furthest::none(),
                        res,
                        after,
                    )
                }
            ||| exists|err: E|
                {
                    &&& #[trigger] parsers.7.outcome(cur, Err(err), cur)
                    &&& scan8(parsers, entry, cur, slots, 8, best.noted(err), res, after)
                }
        }
    } else if pending8(slots) == 0 {
        &&& after == cur
        &&& res == Ok::<(O1, O2, O3, O4, O5, O6, O7, O8), E>((slots.0.unwrap(), slots.1.unwrap(),
            slots.2.unwrap(), slots.3.unwrap(), slots.4.unwrap(), slots.5.unwrap(),
            slots.6.unwrap(), slots.7.unwrap()))
    } else {
        &&& after == entry
        &&& res matches Err(err) && best.err == Some(err)
    }
}

/// The permutation of eight parsers.
impl<'a, I: ?Sized + Sequence, E: ParserError, O1, P1, T1, O2, P2, T2, O3, P3, T3, O4, P4, T4, O5,
    P5, T5, O6, P6, T6, O7, P7, T7, O8, P8, T8> Parser<
    'a,
    I,
    (O1, O2, O3, O4, O5, O6, O7, O8),
    E,
    SeqAlt8<T1, T2, T3, T4, T5, T6, T7, T8>,
> for Permutation<(P1, P2, P3, P4, P5, P6, P7, P8)> where
    P1: Parser<'a, I, O1, E, T1>,
    P2: Parser<'a, I, O2, E, T2>,
    P3: Parser<'a, I, O3, E, T3>,
    P4: Parser<'a, I, O4, E, T4>,
    P5: Parser<'a, I, O5, E, T5>,
    P6: Parser<'a, I, O6, E, T6>,
    P7: Parser<'a, I, O7, E, T7>,
    P8: Parser<'a, I, O8, E, T8>,
 {
    open spec fn ready(&self) -> bool {
        &&& self.0.0.ready()
        &&& self.0.1.ready()
        &&& self.0.2.ready()
        &&& self.0.3.ready()
        &&& self.0.4.ready()
        &&& self.0.5.ready()
        &&& self.0.6.ready()
        &&& self.0.7.ready()
    }

    open spec fn outcome(&self, before: &I, res: Result<(O1, O2, O3, O4, O5, O6, O7, O8), E>,
        after: &I) -> bool {
        scan8(&self.0, before, before, (None, None, None, None, None, None, None, None), 0,
            Furthest::none(), res, after)
    }

    fn fab(&self, input: &mut &'a I) -> (res: Result<(O1, O2, O3, O4, O5, O6, O7, O8), E>) {
        let outer_startloc = *input;
        let mut r1: Option<O1> = None;
        let mut r2: Option<O2> = None;
        let mut r3: Option<O3> = None;
        let mut r4: Option<O4> = None;
        let mut r5: Option<O5> = None;
        let mut r6: Option<O6> = None;
        let mut r7: Option<O7> = None;
        let mut r8: Option<O8> = None;
        proof {
            lemma_suffix_of_self(outer_startloc.items());
        }
        loop
            invariant
                self.ready(),
                outer_startloc == *old(input),
                is_suffix(input.items(), outer_startloc.items()),
                forall|res: Result<(O1, O2, O3, O4, O5, O6, O7, O8), E>, after: &I| #[trigger]
                    scan8(&self.0, outer_startloc, *input, (r1, r2, r3, r4, r5, r6, r7, r8), 0,
                        Furthest::none(), res, after)
                        ==> self.outcome(outer_startloc, res, after),
            decreases pending8((r1, r2, r3, r4, r5, r6, r7, r8)),
        {
            let startloc = *input;
            let mut best = Furthest::new();
            let ghost slots = (r1, r2, r3, r4, r5, r6, r7, r8);
            let ghost b0 = best;
            if r1.is_none() {
                match self.0.0.fab(input) {
                    Ok(out) => {
                        proof {
                            let next = *input;
                            assert(self.0.0.outcome(startloc, Ok(out), next));
                            lemma_suffix_of_suffix(
                                next.items(),
                                startloc.items(),
                                outer_startloc.items(),
                            );
                            assert forall|res: Result<(O1, O2, O3, O4, O5, O6, O7, O8), E>,
                                after: &I| #[trigger]
                                scan8(
                                    &self.0,
                                    outer_startloc,
                                    next,
                                    (Some(out), r2, r3, r4, r5, r6, r7, r8),
                                    0,
                                    Furthest::none(),
                                    res,
                                    after,
                                ) implies self.outcome(outer_startloc, res, after) by {
                                assert(scan8(
                                    &self.0,
                                    outer_startloc,
                                    startloc,
                                    slots,
                                    0,
                                    b0,
                                    res,
                                    after,
                                ));
                            }
                        }
                        r1 = Some(out);
                        continue ;
                    },
                    Err(err) => {
                        assert(self.0.0.outcome(startloc, Err(err), startloc));
                        best.note(err);
                        *input = startloc;
                    },
                }
            }
            let ghost b1 = best;
            assert(r1 is None ==> b1.err is Some);
            assert forall|res: Result<(O1, O2, O3, O4, O5, O6, O7, O8), E>, after: &I| #[trigger]
                scan8(&self.0, outer_startloc, startloc, slots, 1, b1, res, after) implies scan8(
                &self.0,
                outer_startloc,
                startloc,
                slots,
                0,
                b0,
                res,
                after,
            ) by {
            }
            if r2.is_none() {
                match self.0.1.fab(input) {
                    Ok(out) => {
                        proof {
                            let next = *input;
                            assert(self.0.1.outcome(startloc, Ok(out), next));
                            lemma_suffix_of_suffix(
                                next.items(),
                                startloc.items(),
                                outer_startloc.items(),
                            );
                            assert forall|res: Result<(O1, O2, O3, O4, O5, O6, O7, O8), E>,
                                after: &I| #[trigger]
                                scan8(
                                    &self.0,
                                    outer_startloc,
                                    next,
                                    (r1, Some(out), r3, r4, r5, r6, r7, r8),
                                    0,
                                    Furthest::none(),
                                    res,
                                    after,
                                ) implies self.outcome(outer_startloc, res, after) by {
                                assert(scan8(
                                    &self.0,
                                    outer_startloc,
                                    startloc,
                                    slots,
                                    1,
                                    b1,
                                    res,
                                    after,
                                ));
                            }
                        }
                        r2 = Some(out);
                        continue ;
                    },
                    Err(err) => {
                        assert(self.0.1.outcome(startloc, Err(err), startloc));
                        best.note(err);
                        *input = startloc;
                    },
                }
            }
            let ghost b2 = best;
            assert(r1 is None || r2 is None ==> b2.err is Some);
            assert forall|res: Result<(O1, O2, O3, O4, O5, O6, O7, O8), E>, after: &I| #[trigger]
                scan8(&self.0, outer_startloc, startloc, slots, 2, b2, res, after) implies scan8(
                &self.0,
                outer_startloc,
                startloc,
                slots,
                0,
                b0,
                res,
                after,
            ) by {
                assert(scan8(&self.0, outer_startloc, startloc, slots, 1, b1, res, after));
            }
            if r3.is_none() {
                match self.0.2.fab(input) {
                    Ok(out) => {
                        proof {
                            let next = *input;
                            assert(self.0.2.outcome(startloc, Ok(out), next));
                            lemma_suffix_of_suffix(
                                next.items(),
                                startloc.items(),
                                outer_startloc.items(),
                            );
                            assert forall|res: Result<(O1, O2, O3, O4, O5, O6, O7, O8), E>,
                                after: &I| #[trigger]
                                scan8(
                                    &self.0,
                                    outer_startloc,
                                    next,
                                    (r1, r2, Some(out), r4, r5, r6, r7, r8),
                                    0,
                                    Furthest::none(),
                                    res,
                                    after,
                                ) implies self.outcome(outer_startloc, res, after) by {
                                assert(scan8(
                                    &self.0,
                                    outer_startloc,
                                    startloc,
                                    slots,
                                    2,
                                    b2,
                                    res,
                                    after,
                                ));
                            }
                        }
                        r3 = Some(out);
                        continue ;
                    },
                    Err(err) => {
                        assert(self.0.2.outcome(startloc, Err(err), startloc));
                        best.note(err);
                        *input = startloc;
                    },
                }
            }
            let ghost b3 = best;
            assert(r1 is None || r2 is None || r3 is None ==> b3.err is Some);
            assert forall|res: Result<(O1, O2, O3, O4, O5, O6, O7, O8), E>, after: &I| #[trigger]
                scan8(&self.0, outer_startloc, startloc, slots, 3, b3, res, after) implies scan8(
                &self.0,
                outer_startloc,
                startloc,
                slots,
                0,
                b0,
                res,
                after,
            ) by {
                assert(scan8(&self.0, outer_startloc, startloc, slots, 2, b2, res, after));
            }
            if r4.is_none() {
                match self.0.3.fab(input) {
                    Ok(out) => {
                        proof {
                            let next = *input;
                            assert(self.0.3.outcome(startloc, Ok(out), next));
                            lemma_suffix_of_suffix(
                                next.items(),
                                startloc.items(),
                                outer_startloc.items(),
                            );
                            assert forall|res: Result<(O1, O2, O3, O4, O5, O6, O7, O8), E>,
                                after: &I| #[trigger]
                                scan8(
                                    &self.0,
                                    outer_startloc,
                                    next,
                                    (r1, r2, r3, Some(out), r5, r6, r7, r8),
                                    0,
                                    Furthest::none(),
                                    res,
                                    after,
                                ) implies self.outcome(outer_startloc, res, after) by {
                                assert(scan8(
                                    &self.0,
                                    outer_startloc,
                                    startloc,
                                    slots,
                                    3,
                                    b3,
                                    res,
                                    after,
                                ));
                            }
                        }
                        r4 = Some(out);
                        continue ;
                    },
                    Err(err) => {
                        assert(self.0.3.outcome(startloc, Err(err), startloc));
                        best.note(err);
                        *input = startloc;
                    },
                }
            }
            let ghost b4 = best;
            assert(r1 is None || r2 is None || r3 is None || r4 is None ==> b4.err is Some);
            assert forall|res: Result<(O1, O2, O3, O4, O5, O6, O7, O8), E>, after: &I| #[trigger]
                scan8(&self.0, outer_startloc, startloc, slots, 4, b4, res, after) implies scan8(
                &self.0,
                outer_startloc,
                startloc,
                slots,
                0,
                b0,
                res,
                after,
            ) by {
                assert(scan8(&self.0, outer_startloc, startloc, slots, 3, b3, res, after));
            }
            if r5.is_none() {
                match self.0.4.fab(input) {
                    Ok(out) => {
                        proof {
                            let next = *input;
                            assert(self.0.4.outcome(startloc, Ok(out), next));
                            lemma_suffix_of_suffix(
                                next.items(),
                                startloc.items(),
                                outer_startloc.items(),
                            );
                            assert forall|res: Result<(O1, O2, O3, O4, O5, O6, O7, O8), E>,
                                after: &I| #[trigger]
                                scan8(
                                    &self.0,
                                    outer_startloc,
                                    next,
                                    (r1, r2, r3, r4, Some(out), r6, r7, r8),
                                    0,
                                    Furthest::none(),
                                    res,
                                    after,
                                ) implies self.outcome(outer_startloc, res, after) by {
                                assert(scan8(
                                    &self.0,
                                    outer_startloc,
                                    startloc,
                                    slots,
                                    4,
                                    b4,
                                    res,
                                    after,
                                ));
                            }
                        }
                        r5 = Some(out);
                        continue ;
                    },
                    Err(err) => {
                        assert(self.0.4.outcome(startloc, Err(err), startloc));
                        best.note(err);
                        *input = startloc;
                    },
                }
            }
            let ghost b5 = best;
            assert(r1 is None || r2 is None || r3 is None || r4 is None || r5 is None
                ==> b5.err is Some);
            assert forall|res: Result<(O1, O2, O3, O4, O5, O6, O7, O8), E>, after: &I| #[trigger]
                scan8(&self.0, outer_startloc, startloc, slots, 5, b5, res, after) implies scan8(
                &self.0,
                outer_startloc,
                startloc,
                slots,
                0,
                b0,
                res,
                after,
            ) by {
                assert(scan8(&self.0, outer_startloc, startloc, slots, 4, b4, res, after));
            }
            if r6.is_none() {
                match self.0.5.fab(input) {
                    Ok(out) => {
                        proof {
                            let next = *input;
                            assert(self.0.5.outcome(startloc, Ok(out), next));
                            lemma_suffix_of_suffix(
                                next.items(),
                                startloc.items(),
                                outer_startloc.items(),
                            );
                            assert forall|res: Result<(O1, O2, O3, O4, O5, O6, O7, O8), E>,
                                after: &I| #[trigger]
                                scan8(
                                    &self.0,
                                    outer_startloc,
                                    next,
                                    (r1, r2, r3, r4, r5, Some(out), r7, r8),
                                    0,
                                    Furthest::none(),
                                    res,
                                    after,
                                ) implies self.outcome(outer_startloc, res, after) by {
                                assert(scan8(
                                    &self.0,
                                    outer_startloc,
                                    startloc,
                                    slots,
                                    5,
                                    b5,
                                    res,
                                    after,
                                ));
                            }
                        }
                        r6 = Some(out);
                        continue ;
                    },
                    Err(err) => {
                        assert(self.0.5.outcome(startloc, Err(err), startloc));
                        best.note(err);
                        *input = startloc;
                    },
                }
            }
            let ghost b6 = best;
            assert(r1 is None || r2 is None || r3 is None || r4 is None || r5 is None
                || r6 is None ==> b6.err is Some);
            assert forall|res: Result<(O1, O2, O3, O4, O5, O6, O7, O8), E>, after: &I| #[trigger]
                scan8(&self.0, outer_startloc, startloc, slots, 6, b6, res, after) implies scan8(
                &self.0,
                outer_startloc,
                startloc,
                slots,
                0,
                b0,
                res,
                after,
            ) by {
                assert(scan8(&self.0, outer_startloc, startloc, slots, 5, b5, res, after));
            }
            if r7.is_none() {
                match self.0.6.fab(input) {
                    Ok(out) => {
                        proof {
                            let next = *input;
                            assert(self.0.6.outcome(startloc, Ok(out), next));
                            lemma_suffix_of_suffix(
                                next.items(),
                                startloc.items(),
                                outer_startloc.items(),
                            );
                            assert forall|res: Result<(O1, O2, O3, O4, O5, O6, O7, O8), E>,
                                after: &I| #[trigger]
                                scan8(
                                    &self.0,
                                    outer_startloc,
                                    next,
                                    (r1, r2, r3, r4, r5, r6, Some(out), r8),
                                    0,
                                    Furthest::none(),
                                    res,
                                    after,
                                ) implies self.outcome(outer_startloc, res, after) by {
                                assert(scan8(
                                    &self.0,
                                    outer_startloc,
                                    startloc,
                                    slots,
                                    6,
                                    b6,
                                    res,
                                    after,
                                ));
                            }
                        }
                        r7 = Some(out);
                        continue ;
                    },
                    Err(err) => {
                        assert(self.0.6.outcome(startloc, Err(err), startloc));
                        best.note(err);
                        *input = startloc;
                    },
                }
            }
            let ghost b7 = best;
            assert(r1 is None || r2 is None || r3 is None || r4 is None || r5 is None
                || r6 is None || r7 is None ==> b7.err is Some);
            assert forall|res: Result<(O1, O2, O3, O4, O5, O6, O7, O8), E>, after: &I| #[trigger]
                scan8(&self.0, outer_startloc, startloc, slots, 7, b7, res, after) implies scan8(
                &self.0,
                outer_startloc,
                startloc,
                slots,
                0,
                b0,
                res,
                after,
            ) by {
                assert(scan8(&self.0, outer_startloc, startloc, slots, 6, b6, res, after));
            }
            if r8.is_none() {
                match self.0.7.fab(input) {
                    Ok(out) => {
                        proof {
                            let next = *input;
                            assert(self.0.7.outcome(startloc, Ok(out), next));
                            lemma_suffix_of_suffix(
                                next.items(),
                                startloc.items(),
                                outer_startloc.items(),
                            );
                            assert forall|res: Result<(O1, O2, O3, O4, O5, O6, O7, O8), E>,
                                after: &I| #[trigger]
                                scan8(
                                    &self.0,
                                    outer_startloc,
                                    next,
                                    (r1, r2, r3, r4, r5, r6, r7, Some(out)),
                                    0,
                                    Furthest::none(),
                                    res,
                                    after,
                                ) implies self.outcome(outer_startloc, res, after) by {
                                assert(scan8(
                                    &self.0,
                                    outer_startloc,
                                    startloc,
                                    slots,
                                    7,
                                    b7,
                                    res,
                                    after,
                                ));
                            }
                        }
                        r8 = Some(out);
                        continue ;
                    },
                    Err(err) => {
                        assert(self.0.7.outcome(startloc, Err(err), startloc));
                        best.note(err);
                        *input = startloc;
                    },
                }
            }
            let ghost b8 = best;
            assert(r1 is None || r2 is None || r3 is None || r4 is None || r5 is None
                || r6 is None || r7 is None || r8 is None ==> b8.err is Some);
            assert forall|res: Result<(O1, O2, O3, O4, O5, O6, O7, O8), E>, after: &I| #[trigger]
                scan8(&self.0, outer_startloc, startloc, slots, 8, b8, res, after) implies scan8(
                &self.0,
                outer_startloc,
                startloc,
                slots,
                0,
                b0,
                res,
                after,
            ) by {
                assert(scan8(&self.0, outer_startloc, startloc, slots, 7, b7, res, after));
            }
            match (r1, r2, r3, r4, r5, r6, r7, r8) {
                (Some(o1), Some(o2), Some(o3), Some(o4), Some(o5), Some(o6), Some(o7),
                    Some(o8)) => {
                    assert(scan8(
                        &self.0,
                        outer_startloc,
                        startloc,
                        slots,
                        8,
                        b8,
                        Ok((o1, o2, o3, o4, o5, o6, o7, o8)),
                        startloc,
                    ));
                    return Ok((o1, o2, o3, o4, o5, o6, o7, o8));
                },
                _ => {
                    *input = outer_startloc;
                    let err = best.into_error();
                    assert(scan8(
                        &self.0,
                        outer_startloc,
                        startloc,
                        slots,
                        8,
                        b8,
                        Err(err),
                        outer_startloc,
                    ));
                    return Err(err);
                },
            }
        }
    }
}

/// Marks the permutation of nine parsers.
pub struct SeqAlt9<T1, T2, T3, T4, T5, T6, T7, T8, T9> {
    p1: PhantomData<T1>,
    p2: PhantomData<T2>,
    p3: PhantomData<T3>,
    p4: PhantomData<T4>,
    p5: PhantomData<T5>,
    p6: PhantomData<T6>,
    p7: PhantomData<T7>,
    p8: PhantomData<T8>,
    p9: PhantomData<T9>,
}

/// How many of nine parsers have not succeeded yet.
pub open spec fn pending9<O1, O2, O3, O4, O5, O6, O7, O8, O9>(slots: (Option<O1>, Option<O2>,
    Option<O3>, Option<O4>, Option<O5>, Option<O6>, Option<O7>, Option<O8>, Option<O9>)) -> nat {
    (if slots.0 is None {
        1nat
    } else {
        0
    }) + (if slots.1 is None {
        1nat
    } else {
        0
    }) + (if slots.2 is None {
        1nat
    } else {
        0
    }) + (if slots.3 is None {
        1nat
    } else {
        0
    }) + (if slots.4 is None {
        1nat
    } else {
        0
    }) + (if slots.5 is None {
        1nat
    } else {
        0
    }) + (if slots.6 is None {
        1nat
    } else {
        0
    }) + (if slots.7 is None {
        1nat
    } else {
        0
    }) + (if slots.8 is None {
        1nat
    } else {
        0
    })
}

/// What a permutation of nine parsers that started at `entry` may come to,
/// when it stands at `cur` with the values of `slots`, has tried there the
/// parsers before the one at `at`, and has noted `best`.
///
/// A parser that has a value is passed over. Where one of the others
/// succeeds, its value is kept and the parsers are tried anew from where it
/// left the cursor. Where it fails, its error is noted and the next is tried.
/// With all tried, the permutation returns the values if every parser has
/// one; else it fails with the error chosen, and the cursor is at `entry`.
pub open spec fn scan9<'a, I, E, O1, P1, T1, O2, P2, T2, O3, P3, T3, O4, P4, T4, O5, P5, T5, O6,
    P6, T6, O7, P7, T7, O8, P8, T8, O9, P9, T9>(
    parsers: &(P1, P2, P3, P4, P5, P6, P7, P8, P9),
    entry: &I,
    cur: &I,
    slots: (Option<O1>, Option<O2>, Option<O3>, Option<O4>, Option<O5>, Option<O6>, Option<O7>,
        Option<O8>, Option<O9>),
    at: nat,
    best: Furthest<E>,
    res: Result<(O1, O2, O3, O4, O5, O6, O7, O8, O9), E>,
    after: &I,
) -> bool where
    I: ?Sized + Sequence,
    E: ParserError,
    P1: Parser<'a, I, O1, E, T1>,
    P2: Parser<'a, I, O2, E, T2>,
    P3: Parser<'a, I, O3, E, T3>,
    P4: Parser<'a, I, O4, E, T4>,
    P5: Parser<'a, I, O5, E, T5>,
    P6: Parser<'a, I, O6, E, T6>,
    P7: Parser<'a, I, O7, E, T7>,
    P8: Parser<'a, I, O8, E, T8>,
    P9: Parser<'a, I, O9, E, T9>,

    decreases pending9(slots), 9 - at,
{
    if at == 0 {
        if slots.0 is Some {
            scan9(parsers, entry, cur, slots, 1, best, res, after)
        } else {
            ||| exists|out: O1, next: &I|
                {
                    &&& #[trigger] parsers.0.outcome(cur, Ok(out), next)
                    &&& scan9(
                        parsers,
                        entry,
                        next,
                        (Some(out), slots.1, slots.2, slots.3, slots.4, slots.5, slots.6, slots.7,
                            slots.8),
                        0,
                        Furthest::none(),
                        res,
                        after,
                    )
                }
            ||| exists|err: E|
                {
                    &&& #[trigger] parsers.0.outcome(cur, Err(err), cur)
                    &&& scan9(parsers, entry, cur, slots, 1, best.noted(err), res, after)
                }
        }
    } else if at == 1 {
        if slots.1 is Some {
            scan9(parsers, entry, cur, slots, 2, best, res, after)
        } else {
            ||| exists|out: O2, next: &I|
                {
                    &&& #[trigger] parsers.1.outcome(cur, Ok(out), next)
                    &&& scan9(
                        parsers,
                        entry,
                        next,
                        (slots.0, Some(out), slots.2, slots.3, slots.4, slots.5, slots.6, slots.7,
                            slots.8),
                        0,
                        Furthest::none(),
                        res,
                        after,
                    )
                }
            ||| exists|err: E|
                {
                    &&& #[trigger] parsers.1.outcome(cur, Err(err), cur)
                    &&& scan9(parsers, entry, cur, slots, 2, best.noted(err), res, after)
                }
        }
    } else if at == 2 {
        if slots.2 is Some {
            scan9(parsers, entry, cur, slots, 3, best, res, after)
        } else {
            ||| exists|out: O3, next: &I|
                {
                    &&& #[trigger] parsers.2.outcome(cur, Ok(out), next)
                    &&& scan9(
                        parsers,
                        entry,
                        next,
                        (slots.0, slots.1, Some(out), slots.3, slots.4, slots.5, slots.6, slots.7,
                            slots.8),
                        0,
                        Furthest::none(),
                        res,
                        after,
                    )
                }
            ||| exists|err: E|
                {
                    &&& #[trigger] parsers.2.outcome(cur, Err(err), cur)
                    &&& scan9(parsers, entry, cur, slots, 3, best.noted(err), res, after)
                }
        }
    } else if at == 3 {
        if slots.3 is Some {
            scan9(parsers, entry, cur, slots, 4, best, res, after)
        } else {
            ||| exists|out: O4, next: &I|
                {
                    &&& #[trigger] parsers.3.outcome(cur, Ok(out), next)
                    &&& scan9(
                        parsers,
                        entry,
                        next,
                        (slots.0, slots.1, slots.2, Some(out), slots.4, slots.5, slots.6, slots.7,
                            slots.8),
                        0,
                        Furthest::none(),
                        res,
                        after,
                    )
                }
            ||| exists|err: E|
                {
                    &&& #[trigger] parsers.3.outcome(cur, Err(err), cur)
                    &&& scan9(parsers, entry, cur, slots, 4, best.noted(err), res, after)
                }
        }
    } else if at == 4 {
        if slots.4 is Some {
            scan9(parsers, entry, cur, slots, 5, best, res, after)
        } else {
            ||| exists|out: O5, next: &I|
                {
                    &&& #[trigger] parsers.4.outcome(cur, Ok(out), next)
                    &&& scan9(
                        parsers,
                        entry,
                        next,
                        (slots.0, slots.1, slots.2, slots.3, Some(out), slots.5, slots.6, slots.7,
                            slots.8),
                        0,
                        Furthest::none(),
                        res,
                        after,
                    )
                }
            ||| exists|err: E|
                {
                    &&& #[trigger] parsers.4.outcome(cur, Err(err), cur)
                    &&& scan9(parsers, entry, cur, slots, 5, best.noted(err), res, after)
                }
        }
    } else if at == 5 {
        if slots.5 is Some {
            scan9(parsers, entry, cur, slots, 6, best, res, after)
        } else {
            ||| exists|out: O6, next: &I|
                {
                    &&& #[trigger] parsers.5.outcome(cur, Ok(out), next)
                    &&& scan9(
                        parsers,
                        entry,
                        next,
                        (slots.0, slots.1, slots.2, slots.3, slots.4, Some(out), slots.6, slots.7,
                            slots.8),
                        0,
                        Furthest::none(),
                        res,
                        after,
                    )
                }
            ||| exists|err: E|
                {
                    &&& #[trigger] parsers.5.outcome(cur, Err(err), cur)
                    &&& scan9(parsers, entry, cur, slots, 6, best.noted(err), res, after)
                }
        }
    } else if at == 6 {
        if slots.6 is Some {
            scan9(parsers, entry, cur, slots, 7, best, res, after)
        } else {
            ||| exists|out: O7, next: &I|
                {
                    &&& #[trigger] parsers.6.outcome(cur, Ok(out), next)
                    &&& scan9(
                        parsers,
                        entry,
                        next,
                        (slots.0, slots.1, slots.2, slots.3, slots.4, slots.5, Some(out), slots.7,
                            slots.8),
                        0,
                        Furthest::none(),
                        res,
                        after,
                    )
                }
            ||| exists|err: E|
                {
                    &&& #[trigger] parsers.6.outcome(cur, Err(err), cur)
                    &&& scan9(parsers, entry, cur, slots, 7, best.noted(err), res, after)
                }
        }
    } else if at == 7 {
        if slots.7 is Some {
            scan9(parsers, entry, cur, slots, 8, best, res, after)
        } else {
            ||| exists|out: O8, next: &I|
                {
                    &&& #[trigger] parsers.7.outcome(cur, Ok(out), next)
                    &&& scan9(
                        parsers,
                        entry,
                        next,
                        (slots.0, slots.1, slots.2, slots.3, slots.4, slots.5, slots.6, Some(out),
                            slots.8),
                        0,
                        Furthest::none(),
                        res,
                        after,
                    )
                }
            ||| exists|err: E|
                {
                    &&& #[trigger] parsers.7.outcome(cur, Err(err), cur)
                    &&& scan9(parsers, entry, cur, slots, 8, best.noted(err), res, after)
                }
        }
    } else if at == 8 {
        if slots.8 is Some {
            scan9(parsers, entry, cur, slots, 9, best, res, after)
        } else {
            ||| exists|out: O9, next: &I|
                {
                    &&& #[trigger] parsers.8.outcome(cur, Ok(out), next)
                    &&& scan9(
                        parsers,
                        entry,
                        next,
                        (slots.0, slots.1, slots.2, slots.3, slots.4, slots.5, slots.6, slots.7,
                            Some(out)),
                        0,
                        Furthest::none(),
                        res,
                        after,
                    )
                }
            ||| exists|err: E|
                {
                    &&& #[trigger] parsers.8.outcome(cur, Err(err), cur)
                    &&& scan9(parsers, entry, cur, slots, 9, best.noted(err), res, after)
                }
        }
    } else if pending9(slots) == 0 {
        &&& after == cur
        &&& res == Ok::<(O1, O2, O3, O4, O5, O6, O7, O8, O9), E>((slots.0.unwrap(),
            slots.1.unwrap(), slots.2.unwrap(), slots.3.unwrap(), slots.4.unwrap(),
            slots.5.unwrap(), slots.6.unwrap(), slots.7.unwrap(), slots.8.unwrap()))
    } else {
        &&& after == entry
        &&& res matches Err(err) && best.err == Some(err)
    }
}

/// The permutation of nine parsers.
impl<'a, I: ?Sized + Sequence, E: ParserError, O1, P1, T1, O2, P2, T2, O3, P3, T3, O4, P4, T4, O5,
    P5, T5, O6, P6, T6, O7, P7, T7, O8, P8, T8, O9, P9, T9> Parser<
    'a,
    I,
    (O1, O2, O3, O4, O5, O6, O7, O8, O9),
    E,
    SeqAlt9<T1, T2, T3, T4, T5, T6, T7, T8, T9>,
> for Permutation<(P1, P2, P3, P4, P5, P6, P7, P8, P9)> where
    P1: Parser<'a, I, O1, E, T1>,
    P2: Parser<'a, I, O2, E, T2>,
    P3: Parser<'a, I, O3, E, T3>,
    P4: Parser<'a, I, O4, E, T4>,
    P5: Parser<'a, I, O5, E, T5>,
    P6: Parser<'a, I, O6, E, T6>,
    P7: Parser<'a, I, O7, E, T7>,
    P8: Parser<'a, I, O8, E, T8>,
    P9: Parser<'a, I, O9, E, T9>,
 {
    open spec fn ready(&self) -> bool {
        &&& self.0.0.ready()
        &&& self.0.1.ready()
        &&& self.0.2.ready()
        &&& self.0.3.ready()
        &&& self.0.4.ready()
        &&& self.0.5.ready()
        &&& self.0.6.ready()
        &&& self.0.7.ready()
        &&& self.0.8.ready()
    }

    open spec fn outcome(&self, before: &I, res: Result<(O1, O2, O3, O4, O5, O6, O7, O8, O9), E>,
        after: &I) -> bool {
        scan9(&self.0, before, before, (None, None, None, None, None, None, None, None, None), 0,
            Furthest::none(), res, after)
    }

    #[verifier::rlimit(20)]
    fn fab(&self, input: &mut &'a I) -> (res: Result<(O1, O2, O3, O4, O5, O6, O7, O8, O9), E>) {
        let outer_startloc = *input;
        let mut r1: Option<O1> = None;
        let mut r2: Option<O2> = None;
        let mut r3: Option<O3> = None;
        let mut r4: Option<O4> = None;
        let mut r5: Option<O5> = None;
        let mut r6: Option<O6> = None;
        let mut r7: Option<O7> = None;
        let mut r8: Option<O8> = None;
        let mut r9: Option<O9> = None;
        proof {
            lemma_suffix_of_self(outer_startloc.items());
        }
        loop
            invariant
                self.ready(),
                outer_startloc == *old(input),
                is_suffix(input.items(), outer_startloc.items()),
                forall|res: Result<(O1, O2, O3, O4, O5, O6, O7, O8, O9), E>, after: &I| #[trigger]
                    scan9(&self.0, outer_startloc, *input, (r1, r2, r3, r4, r5, r6, r7, r8, r9), 0,
                        Furthest::none(), res, after)
                        ==> self.outcome(outer_startloc, res, after),
            decreases pending9((r1, r2, r3, r4, r5, r6, r7, r8, r9)),
        {
            let startloc = *input;
            let mut best = Furthest::new();
            let ghost slots = (r1, r2, r3, r4, r5, r6, r7, r8, r9);
            let ghost b0 = best;
            if r1.is_none() {
                match self.0.0.fab(input) {
                    Ok(out) => {
                        proof {
                            let next = *input;
                            assert(self.0.0.outcome(startloc, Ok(out), next));
                            lemma_suffix_of_suffix(
                                next.items(),
                                startloc.items(),
                                outer_startloc.items(),
                            );
                            assert forall|res: Result<(O1, O2, O3, O4, O5, O6, O7, O8, O9), E>,
                                after: &I| #[trigger]
                                scan9(
                                    &self.0,
                                    outer_startloc,
                                    next,
                                    (Some(out), r2, r3, r4, r5, r6, r7, r8, r9),
                                    0,
                                    Furthest::none(),
                                    res,
                                    after,
                                ) implies self.outcome(outer_startloc, res, after) by {
                                assert(scan9(
                                    &self.0,
                                    outer_startloc,
                                    startloc,
                                    slots,
                                    0,
                                    b0,
                                    res,
                                    after,
                                ));
                            }
                        }
                        r1 = Some(out);
                        continue ;
                    },
                    Err(err) => {
                        assert(self.0.0.outcome(startloc, Err(err), startloc));
                        best.note(err);
                        *input = startloc;
                    },
                }
            }
            let ghost b1 = best;
            assert(r1 is None ==> b1.err is Some);
            assert forall|res: Result<(O1, O2, O3, O4, O5, O6, O7, O8, O9), E>,
                after: &I| #[trigger]
                scan9(&self.0, outer_startloc, startloc, slots, 1, b1, res, after) implies scan9(
                &self.0,
                outer_startloc,
                startloc,
                slots,
                0,
                b0,
                res,
                after,
            ) by {
            }
            if r2.is_none() {
                match self.0.1.fab(input) {
                    Ok(out) => {
                        proof {
                            let next = *input;
                            assert(self.0.1.outcome(startloc, Ok(out), next));
                            lemma_suffix_of_suffix(
                                next.items(),
                                startloc.items(),
                                outer_startloc.items(),
                            );
                            assert forall|res: Result<(O1, O2, O3, O4, O5, O6, O7, O8, O9), E>,
                                after: &I| #[trigger]
                                scan9(
                                    &self.0,
                                    outer_startloc,
                                    next,
                                    (r1, Some(out), r3, r4, r5, r6, r7, r8, r9),
                                    0,
                                    Furthest::none(),
                                    res,
                                    after,
                                ) implies self.outcome(outer_startloc, res, after) by {
                                assert(scan9(
                                    &self.0,
                                    outer_startloc,
                                    startloc,
                                    slots,
                                    1,
                                    b1,
                                    res,
                                    after,
                                ));
                            }
                        }
                        r2 = Some(out);
                        continue ;
                    },
                    Err(err) => {
                        assert(self.0.1.outcome(startloc, Err(err), startloc));
                        best.note(err);
                        *input = startloc;
                    },
                }
            }
            let ghost b2 = best;
            assert(r1 is None || r2 is None ==> b2.err is Some);
            assert forall|res: Result<(O1, O2, O3, O4, O5, O6, O7, O8, O9), E>,
                after: &I| #[trigger]
                scan9(&self.0, outer_startloc, startloc, slots, 2, b2, res, after) implies scan9(
                &self.0,
                outer_startloc,
                startloc,
                slots,
                0,
                b0,
                res,
                after,
            ) by {
                assert(scan9(&self.0, outer_startloc, startloc, slots, 1, b1, res, after));
            }
            if r3.is_none() {
                match self.0.2.fab(input) {
                    Ok(out) => {
                        proof {
                            let next = *input;
                            assert(self.0.2.outcome(startloc, Ok(out), next));
                            lemma_suffix_of_suffix(
                                next.items(),
                                startloc.items(),
                                outer_startloc.items(),
                            );
                            assert forall|res: Result<(O1, O2, O3, O4, O5, O6, O7, O8, O9), E>,
                                after: &I| #[trigger]
                                scan9(
                                    &self.0,
                                    outer_startloc,
                                    next,
                                    (r1, r2, Some(out), r4, r5, r6, r7, r8, r9),
                                    0,
                                    Furthest::none(),
                                    res,
                                    after,
                                ) implies self.outcome(outer_startloc, res, after) by {
                                assert(scan9(
                                    &self.0,
                                    outer_startloc,
                                    startloc,
                                    slots,
                                    2,
                                    b2,
                                    res,
                                    after,
                                ));
                            }
                        }
                        r3 = Some(out);
                        continue ;
                    },
                    Err(err) => {
                        assert(self.0.2.outcome(startloc, Err(err), startloc));
                        best.note(err);
                        *input = startloc;
                    },
                }
            }
            let ghost b3 = best;
            assert(r1 is None || r2 is None || r3 is None ==> b3.err is Some);
            assert forall|res: Result<(O1, O2, O3, O4, O5, O6, O7, O8, O9), E>,
                after: &I| #[trigger]
                scan9(&self.0, outer_startloc, startloc, slots, 3, b3, res, after) implies scan9(
                &self.0,
                outer_startloc,
                startloc,
                slots,
                0,
                b0,
                res,
                after,
            ) by {
                assert(scan9(&self.0, outer_startloc, startloc, slots, 2, b2, res, after));
            }
            if r4.is_none() {
                match self.0.3.fab(input) {
                    Ok(out) => {
                        proof {
                            let next = *input;
                            assert(self.0.3.outcome(startloc, Ok(out), next));
                            lemma_suffix_of_suffix(
                                next.items(),
                                startloc.items(),
                                outer_startloc.items(),
                            );
                            assert forall|res: Result<(O1, O2, O3, O4, O5, O6, O7, O8, O9), E>,
                                after: &I| #[trigger]
                                scan9(
                                    &self.0,
                                    outer_startloc,
                                    next,
                                    (r1, r2, r3, Some(out), r5, r6, r7, r8, r9),
                                    0,
                                    Furthest::none(),
                                    res,
                                    after,
                                ) implies self.outcome(outer_startloc, res, after) by {
                                assert(scan9(
                                    &self.0,
                                    outer_startloc,
                                    startloc,
                                    slots,
                                    3,
                                    b3,
                                    res,
                                    after,
                                ));
                            }
                        }
                        r4 = Some(out);
                        continue ;
                    },
                    Err(err) => {
                        assert(self.0.3.outcome(startloc, Err(err), startloc));
                        best.note(err);
                        *input = startloc;
                    },
                }
            }
            let ghost b4 = best;
            assert(r1 is None || r2 is None || r3 is None || r4 is None ==> b4.err is Some);
            assert forall|res: Result<(O1, O2, O3, O4, O5, O6, O7, O8, O9), E>,
                after: &I| #[trigger]
                scan9(&self.0, outer_startloc, startloc, slots, 4, b4, res, after) implies scan9(
                &self.0,
                outer_startloc,
                startloc,
                slots,
                0,
                b0,
                res,
                after,
            ) by {
                assert(scan9(&self.0, outer_startloc, startloc, slots, 3, b3, res, after));
            }
            if r5.is_none() {
                match self.0.4.fab(input) {
                    Ok(out) => {
                        proof {
                            let next = *input;
                            assert(self.0.4.outcome(startloc, Ok(out), next));
                            lemma_suffix_of_suffix(
                                next.items(),
                                startloc.items(),
                                outer_startloc.items(),
                            );
                            assert forall|res: Result<(O1, O2, O3, O4, O5, O6, O7, O8, O9), E>,
                                after: &I| #[trigger]
                                scan9(
                                    &self.0,
                                    outer_startloc,
                                    next,
                                    (r1, r2, r3, r4, Some(out), r6, r7, r8, r9),
                                    0,
                                    Furthest::none(),
                                    res,
                                    after,
                                ) implies self.outcome(outer_startloc, res, after) by {
                                assert(scan9(
                                    &self.0,
                                    outer_startloc,
                                    startloc,
                                    slots,
                                    4,
                                    b4,
                                    res,
                                    after,
                                ));
                            }
                        }
                        r5 = Some(out);
                        continue ;
                    },
                    Err(err) => {
                        assert(self.0.4.outcome(startloc, Err(err), startloc));
                        best.note(err);
                        *input = startloc;
                    },
                }
            }
            let ghost b5 = best;
            assert(r1 is None || r2 is None || r3 is None || r4 is None || r5 is None
                ==> b5.err is Some);
            assert forall|res: Result<(O1, O2, O3, O4, O5, O6, O7, O8, O9), E>,
                after: &I| #[trigger]
                scan9(&self.0, outer_startloc, startloc, slots, 5, b5, res, after) implies scan9(
                &self.0,
                outer_startloc,
                startloc,
                slots,
                0,
                b0,
                res,
                after,
            ) by {
                assert(scan9(&self.0, outer_startloc, startloc, slots, 4, b4, res, after));
            }
            if r6.is_none() {
                match self.0.5.fab(input) {
                    Ok(out) => {
                        proof {
                            let next = *input;
                            assert(self.0.5.outcome(startloc, Ok(out), next));
                            lemma_suffix_of_suffix(
                                next.items(),
                                startloc.items(),
                                outer_startloc.items(),
                            );
                            assert forall|res: Result<(O1, O2, O3, O4, O5, O6, O7, O8, O9), E>,
                                after: &I| #[trigger]
                                scan9(
                                    &self.0,
                                    outer_startloc,
                                    next,
                                    (r1, r2, r3, r4, r5, Some(out), r7, r8, r9),
                                    0,
                                    Furthest::none(),
                                    res,
                                    after,
                                ) implies self.outcome(outer_startloc, res, after) by {
                                assert(scan9(
                                    &self.0,
                                    outer_startloc,
                                    startloc,
                                    slots,
                                    5,
                                    b5,
                                    res,
                                    after,
                                ));
                            }
                        }
                        r6 = Some(out);
                        continue ;
                    },
                    Err(err) => {
                        assert(self.0.5.outcome(startloc, Err(err), startloc));
                        best.note(err);
                        *input = startloc;
                    },
                }
            }
            let ghost b6 = best;
            assert(r1 is None || r2 is None || r3 is None || r4 is None || r5 is None
                || r6 is None ==> b6.err is Some);
            assert forall|res: Result<(O1, O2, O3, O4, O5, O6, O7, O8, O9), E>,
                after: &I| #[trigger]
                scan9(&self.0, outer_startloc, startloc, slots, 6, b6, res, after) implies scan9(
                &self.0,
                outer_startloc,
                startloc,
                slots,
                0,
                b0,
                res,
                after,
            ) by {
                assert(scan9(&self.0, outer_startloc, startloc, slots, 5, b5, res, after));
            }
            if r7.is_none() {
                match self.0.6.fab(input) {
                    Ok(out) => {
                        proof {
                            let next = *input;
                            assert(self.0.6.outcome(startloc, Ok(out), next));
                            lemma_suffix_of_suffix(
                                next.items(),
                                startloc.items(),
                                outer_startloc.items(),
                            );
                            assert forall|res: Result<(O1, O2, O3, O4, O5, O6, O7, O8, O9), E>,
                                after: &I| #[trigger]
                                scan9(
                                    &self.0,
                                    outer_startloc,
                                    next,
                                    (r1, r2, r3, r4, r5, r6, Some(out), r8, r9),
                                    0,
                                    Furthest::none(),
                                    res,
                                    after,
                                ) implies self.outcome(outer_startloc, res, after) by {
                                assert(scan9(
                                    &self.0,
                                    outer_startloc,
                                    startloc,
                                    slots,
                                    6,
                                    b6,
                                    res,
                                    after,
                                ));
                            }
                        }
                        r7 = Some(out);
                        continue ;
                    },
                    Err(err) => {
                        assert(self.0.6.outcome(startloc, Err(err), startloc));
                        best.note(err);
                        *input = startloc;
                    },
                }
            }
            let ghost b7 = best;
            assert(r1 is None || r2 is None || r3 is None || r4 is None || r5 is None
                || r6 is None || r7 is None ==> b7.err is Some);
            assert forall|res: Result<(O1, O2, O3, O4, O5, O6, O7, O8, O9), E>,
                after: &I| #[trigger]
                scan9(&self.0, outer_startloc, startloc, slots, 7, b7, res, after) implies scan9(
                &self.0,
                outer_startloc,
                startloc,
                slots,
                0,
                b0,
                res,
                after,
            ) by {
                assert(scan9(&self.0, outer_startloc, startloc, slots, 6, b6, res, after));
            }
            if r8.is_none() {
                match self.0.7.fab(input) {
                    Ok(out) => {
                        proof {
                            let next = *input;
                            assert(self.0.7.outcome(startloc, Ok(out), next));
                            lemma_suffix_of_suffix(
                                next.items(),
                                startloc.items(),
                                outer_startloc.items(),
                            );
                            assert forall|res: Result<(O1, O2, O3, O4, O5, O6, O7, O8, O9), E>,
                                after: &I| #[trigger]
                                scan9(
                                    &self.0,
                                    outer_startloc,
                                    next,
                                    (r1, r2, r3, r4, r5, r6, r7, Some(out), r9),
                                    0,
                                    Furthest::none(),
                                    res,
                                    after,
                                ) implies self.outcome(outer_startloc, res, after) by {
                                assert(scan9(
                                    &self.0,
                                    outer_startloc,
                                    startloc,
                                    slots,
                                    7,
                                    b7,
                                    res,
                                    after,
                                ));
                            }
                        }
                        r8 = Some(out);
                        continue ;
                    },
                    Err(err) => {
                        assert(self.0.7.outcome(startloc, Err(err), startloc));
                        best.note(err);
                        *input = startloc;
                    },
                }
            }
            let ghost b8 = best;
            assert(r1 is None || r2 is None || r3 is None || r4 is None || r5 is None
                || r6 is None || r7 is None || r8 is None ==> b8.err is Some);
            assert forall|res: Result<(O1, O2, O3, O4, O5, O6, O7, O8, O9), E>,
                after: &I| #[trigger]
                scan9(&self.0, outer_startloc, startloc, slots, 8, b8, res, after) implies scan9(
                &self.0,
                outer_startloc,
                startloc,
                slots,
                0,
                b0,
                res,
                after,
            ) by {
                assert(scan9(&self.0, outer_startloc, startloc, slots, 7, b7, res, after));
            }
            if r9.is_none() {
                match self.0.8.fab(input) {
                    Ok(out) => {
                        proof {
                            let next = *input;
                            assert(self.0.8.outcome(startloc, Ok(out), next));
                            lemma_suffix_of_suffix(
                                next.items(),
                                startloc.items(),
                                outer_startloc.items(),
                            );
                            assert forall|res: Result<(O1, O2, O3, O4, O5, O6, O7, O8, O9), E>,
                                after: &I| #[trigger]
                                scan9(
                                    &self.0,
                                    outer_startloc,
                                    next,
                                    (r1, r2, r3, r4, r5, r6, r7, r8, Some(out)),
                                    0,
                                    Furthest::none(),
                                    res,
                                    after,
                                ) implies self.outcome(outer_startloc, res, after) by {
                                assert(scan9(
                                    &self.0,
                                    outer_startloc,
                                    startloc,
                                    slots,
                                    8,
                                    b8,
                                    res,
                                    after,
                                ));
                            }
                        }
                        r9 = Some(out);
                        continue ;
                    },
                    Err(err) => {
                        assert(self.0.8.outcome(startloc, Err(err), startloc));
                        best.note(err);
                        *input = startloc;
                    },
                }
            }
            let ghost b9 = best;
            assert(r1 is None || r2 is None || r3 is None || r4 is None || r5 is None
                || r6 is None || r7 is None || r8 is None || r9 is None ==> b9.err is Some);
            assert forall|res: Result<(O1, O2, O3, O4, O5, O6, O7, O8, O9), E>,
                after: &I| #[trigger]
                scan9(&self.0, outer_startloc, startloc, slots, 9, b9, res, after) implies scan9(
                &self.0,
                outer_startloc,
                startloc,
                slots,
                0,
                b0,
                res,
                after,
            ) by {
                assert(scan9(&self.0, outer_startloc, startloc, slots, 8, b8, res, after));
            }
            match (r1, r2, r3, r4, r5, r6, r7, r8, r9) {
                (Some(o1), Some(o2), Some(o3), Some(o4), Some(o5), Some(o6), Some(o7), Some(o8),
                    Some(o9)) => {
                    assert(scan9(
                        &self.0,
                        outer_startloc,
                        startloc,
                        slots,
                        9,
                        b9,
                        Ok((o1, o2, o3, o4, o5, o6, o7, o8, o9)),
                        startloc,
                    ));
                    return Ok((o1, o2, o3, o4, o5, o6, o7, o8, o9));
                },
                _ => {
                    *input = outer_startloc;
                    let err = best.into_error();
                    assert(scan9(
                        &self.0,
                        outer_startloc,
                        startloc,
                        slots,
                        9,
                        b9,
                        Err(err),
                        outer_startloc,
                    ));
                    return Err(err);
                },
            }
        }
    }
}

/// Marks the permutation of ten parsers.
pub struct SeqAlt10<T1, T2, T3, T4, T5, T6, T7, T8, T9, T10> {
    p1: PhantomData<T1>,
    p2: PhantomData<T2>,
    p3: PhantomData<T3>,
    p4: PhantomData<T4>,
    p5: PhantomData<T5>,
    p6: PhantomData<T6>,
    p7: PhantomData<T7>,
    p8: PhantomData<T8>,
    p9: PhantomData<T9>,
    p10: PhantomData<T10>,
}

/// How many of ten parsers have not succeeded yet.
pub open spec fn pending10<O1, O2, O3, O4, O5, O6, O7, O8, O9, O10>(slots: (Option<O1>, Option<O2>,
    Option<O3>, Option<O4>, Option<O5>, Option<O6>, Option<O7>, Option<O8>, Option<O9>,
    Option<O10>)) -> nat {
    (if slots.0 is None {
        1nat
    } else {
        0
    }) + (if slots.1 is None {
        1nat
    } else {
        0
    }) + (if slots.2 is None {
        1nat
    } else {
        0
    }) + (if slots.3 is None {
        1nat
    } else {
        0
    }) + (if slots.4 is None {
        1nat
    } else {
        0
    }) + (if slots.5 is None {
        1nat
    } else {
        0
    }) + (if slots.6 is None {
        1nat
    } else {
        0
    }) + (if slots.7 is None {
        1nat
    } else {
        0
    }) + (if slots.8 is None {
        1nat
    } else {
        0
    }) + (if slots.9 is None {
        1nat
    } else {
        0
    })
}

/// What a permutation of ten parsers that started at `entry` may come to,
/// when it stands at `cur` with the values of `slots`, has tried there the
/// parsers before the one at `at`, and has noted `best`.
///
/// A parser that has a value is passed over. Where one of the others
/// succeeds, its value is kept and the parsers are tried anew from where it
/// left the cursor. Where it fails, its error is noted and the next is tried.
/// With all tried, the permutation returns the values if every parser has
/// one; else it fails with the error chosen, and the cursor is at `entry`.
pub open spec fn scan10<'a, I, E, O1, P1, T1, O2, P2, T2, O3, P3, T3, O4, P4, T4, O5, P5, T5, O6,
    P6, T6, O7, P7, T7, O8, P8, T8, O9, P9, T9, O10, P10, T10>(
    parsers: &(P1, P2, P3, P4, P5, P6, P7, P8, P9, P10),
    entry: &I,
    cur: &I,
    slots: (Option<O1>, Option<O2>, Option<O3>, Option<O4>, Option<O5>, Option<O6>, Option<O7>,
        Option<O8>, Option<O9>, Option<O10>),
    at: nat,
    best: Furthest<E>,
    res: Result<(O1, O2, O3, O4, O5, O6, O7, O8, O9, O10), E>,
    after: &I,
) -> bool where
    I: ?Sized + Sequence,
    E: ParserError,
    P1: Parser<'a, I, O1, E, T1>,
    P2: Parser<'a, I, O2, E, T2>,
    P3: Parser<'a, I, O3, E, T3>,
    P4: Parser<'a, I, O4, E, T4>,
    P5: Parser<'a, I, O5, E, T5>,
    P6: Parser<'a, I, O6, E, T6>,
    P7: Parser<'a, I, O7, E, T7>,
    P8: Parser<'a, I, O8, E, T8>,
    P9: Parser<'a, I, O9, E, T9>,
    P10: Parser<'a, I, O10, E, T10>,

    decreases pending10(slots), 10 - at,
{
    if at == 0 {
        if slots.0 is Some {
            scan10(parsers, entry, cur, slots, 1, best, res, after)
        } else {
            ||| exists|out: O1, next: &I|
                {
                    &&& #[trigger] parsers.0.outcome(cur, Ok(out), next)
                    &&& scan10(
                        parsers,
                        entry,
                        next,
                        (Some(out), slots.1, slots.2, slots.3, slots.4, slots.5, slots.6, slots.7,
                            slots.8, slots.9),
                        0,
                        Furthest::none(),
                        res,
                        after,
                    )
                }
            ||| exists|err: E|
                {
                    &&& #[trigger] parsers.0.outcome(cur, Err(err), cur)
                    &&& scan10(parsers, entry, cur, slots, 1, best.noted(err), res, after)
                }
        }
    } else if at == 1 {
        if slots.1 is Some {
            scan10(parsers, entry, cur, slots, 2, best, res, after)
        } else {
            ||| exists|out: O2, next: &I|
                {
                    &&& #[trigger] parsers.1.outcome(cur, Ok(out), next)
                    &&& scan10(
                        parsers,
                        entry,
                        next,
                        (slots.0, Some(out), slots.2, slots.3, slots.4, slots.5, slots.6, slots.7,
                            slots.8, slots.9),
                        0,
                        Furthest::none(),
                        res,
                        after,
                    )
                }
            ||| exists|err: E|
                {
                    &&& #[trigger] parsers.1.outcome(cur, Err(err), cur)
                    &&& scan10(parsers, entry, cur, slots, 2, best.noted(err), res, after)
                }
        }
    } else if at == 2 {
        if slots.2 is Some {
            scan10(parsers, entry, cur, slots, 3, best, res, after)
        } else {
            ||| exists|out: O3, next: &I|
                {
                    &&& #[trigger] parsers.2.outcome(cur, Ok(out), next)
                    &&& scan10(
                        parsers,
                        entry,
                        next,
                        (slots.0, slots.1, Some(out), slots.3, slots.4, slots.5, slots.6, slots.7,
                            slots.8, slots.9),
                        0,
                        Furthest::none(),
                        res,
                        after,
                    )
                }
            ||| exists|err: E|
                {
                    &&& #[trigger] parsers.2.outcome(cur, Err(err), cur)
                    &&& scan10(parsers, entry, cur, slots, 3, best.noted(err), res, after)
                }
        }
    } else if at == 3 {
        if slots.3 is Some {
            scan10(parsers, entry, cur, slots, 4, best, res, after)
        } else {
            ||| exists|out: O4, next: &I|
                {
                    &&& #[trigger] parsers.3.outcome(cur, Ok(out), next)
                    &&& scan10(
                        parsers,
                        entry,
                        next,
                        (slots.0, slots.1, slots.2, Some(out), slots.4, slots.5, slots.6, slots.7,
                            slots.8, slots.9),
                        0,
                        Furthest::none(),
                        res,
                        after,
                    )
                }
            ||| exists|err: E|
                {
                    &&& #[trigger] parsers.3.outcome(cur, Err(err), cur)
                    &&& scan10(parsers, entry, cur, slots, 4, best.noted(err), res, after)
                }
        }
    } else if at == 4 {
        if slots.4 is Some {
            scan10(parsers, entry, cur, slots, 5, best, res, after)
        } else {
            ||| exists|out: O5, next: &I|
                {
                    &&& #[trigger] parsers.4.outcome(cur, Ok(out), next)
                    &&& scan10(
                        parsers,
                        entry,
                        next,
                        (slots.0, slots.1, slots.2, slots.3, Some(out), slots.5, slots.6, slots.7,
                            slots.8, slots.9),
                        0,
                        Furthest::none(),
                        res,
                        after,
                    )
                }
            ||| exists|err: E|
                {
                    &&& #[trigger] parsers.4.outcome(cur, Err(err), cur)
                    &&& scan10(parsers, entry, cur, slots, 5, best.noted(err), res, after)
                }
        }
    } else if at == 5 {
        if slots.5 is Some {
            scan10(parsers, entry, cur, slots, 6, best, res, after)
        } else {
            ||| exists|out: O6, next: &I|
                {
                    &&& #[trigger] parsers.5.outcome(cur, Ok(out), next)
                    &&& scan10(
                        parsers,
                        entry,
                        next,
                        (slots.0, slots.1, slots.2, slots.3, slots.4, Some(out), slots.6, slots.7,
                            slots.8, slots.9),
                        0,
                        Furthest::none(),
                        res,
                        after,
                    )
                }
            ||| exists|err: E|
                {
                    &&& #[trigger] parsers.5.outcome(cur, Err(err), cur)
                    &&& scan10(parsers, entry, cur, slots, 6, best.noted(err), res, after)
                }
        }
    } else if at == 6 {
        if slots.6 is Some {
            scan10(parsers, entry, cur, slots, 7, best, res, after)
        } else {
            ||| exists|out: O7, next: &I|
                {
                    &&& #[trigger] parsers.6.outcome(cur, Ok(out), next)
                    &&& scan10(
                        parsers,
                        entry,
                        next,
                        (slots.0, slots.1, slots.2, slots.3, slots.4, slots.5, Some(out), slots.7,
                            slots.8, slots.9),
                        0,
                        Furthest::none(),
                        res,
                        after,
                    )
                }
            ||| exists|err: E|
                {
                    &&& #[trigger] parsers.6.outcome(cur, Err(err), cur)
                    &&& scan10(parsers, entry, cur, slots, 7, best.noted(err), res, after)
                }
        }
    } else if at == 7 {
        if slots.7 is Some {
            scan10(parsers, entry, cur, slots, 8, best, res, after)
        } else {
            ||| exists|out: O8, next: &I|
                {
                    &&& #[trigger] parsers.7.outcome(cur, Ok(out), next)
                    &&& scan10(
                        parsers,
                        entry,
                        next,
                        (slots.0, slots.1, slots.2, slots.3, slots.4, slots.5, slots.6, Some(out),
                            slots.8, slots.9),
                        0,
                        Furthest::none(),
                        res,
                        after,
                    )
                }
            ||| exists|err: E|
                {
                    &&& #[trigger] parsers.7.outcome(cur, Err(err), cur)
                    &&& scan10(parsers, entry, cur, slots, 8, best.noted(err), res, after)
                }
        }
    } else if at == 8 {
        if slots.8 is Some {
            scan10(parsers, entry, cur, slots, 9, best, res, after)
        } else {
            ||| exists|out: O9, next: &I|
                {
                    &&& #[trigger] parsers.8.outcome(cur, Ok(out), next)
                    &&& scan10(
                        parsers,
                        entry,
                        next,
                        (slots.0, slots.1, slots.2, slots.3, slots.4, slots.5, slots.6, slots.7,
                            Some(out), slots.9),
                        0,
                        Furthest::none(),
                        res,
                        after,
                    )
                }
            ||| exists|err: E|
                {
                    &&& #[trigger] parsers.8.outcome(cur, Err(err), cur)
                    &&& scan10(parsers, entry, cur, slots, 9, best.noted(err), res, after)
                }
        }
    } else if at == 9 {
        if slots.9 is Some {
            scan10(parsers, entry, cur, slots, 10, best, res, after)
        } else {
            ||| exists|out: O10, next: &I|
                {
                    &&& #[trigger] parsers.9.outcome(cur, Ok(out), next)
                    &&& scan10(
                        parsers,
                        entry,
                        next,
                        (slots.0, slots.1, slots.2, slots.3, slots.4, slots.5, slots.6, slots.7,
                            slots.8, Some(out)),
                        0,
                        Furthest::none(),
                        res,
                        after,
                    )
                }
            ||| exists|err: E|
                {
                    &&& #[trigger] parsers.9.outcome(cur, Err(err), cur)
                    &&& scan10(parsers, entry, cur, slots, 10, best.noted(err), res, after)
                }
        }
    } else if pending10(slots) == 0 {
        &&& after == cur
        &&& res == Ok::<(O1, O2, O3, O4, O5, O6, O7, O8, O9, O10), E>((slots.0.unwrap(),
            slots.1.unwrap(), slots.2.unwrap(), slots.3.unwrap(), slots.4.unwrap(),
            slots.5.unwrap(), slots.6.unwrap(), slots.7.unwrap(), slots.8.unwrap(),
            slots.9.unwrap()))
    } else {
        &&& after == entry
        &&& res matches Err(err) && best.err == Some(err)
    }
}

/// The permutation of ten parsers.
impl<'a, I: ?Sized + Sequence, E: ParserError, O1, P1, T1, O2, P2, T2, O3, P3, T3, O4, P4, T4, O5,
    P5, T5, O6, P6, T6, O7, P7, T7, O8, P8, T8, O9, P9, T9, O10, P10, T10> Parser<
    'a,
    I,
    (O1, O2, O3, O4, O5, O6, O7, O8, O9, O10),
    E,
    SeqAlt10<T1, T2, T3, T4, T5, T6, T7, T8, T9, T10>,
> for Permutation<(P1, P2, P3, P4, P5, P6, P7, P8, P9, P10)> where
    P1: Parser<'a, I, O1, E, T1>,
    P2: Parser<'a, I, O2, E, T2>,
    P3: Parser<'a, I, O3, E, T3>,
    P4: Parser<'a, I, O4, E, T4>,
    P5: Parser<'a, I, O5, E, T5>,
    P6: Parser<'a, I, O6, E, T6>,
    P7: Parser<'a, I, O7, E, T7>,
    P8: Parser<'a, I, O8, E, T8>,
    P9: Parser<'a, I, O9, E, T9>,
    P10: Parser<'a, I, O10, E, T10>,
 {
    open spec fn ready(&self) -> bool {
        &&& self.0.0.ready()
        &&& self.0.1.ready()
        &&& self.0.2.ready()
        &&& self.0.3.ready()
        &&& self.0.4.ready()
        &&& self.0.5.ready()
        &&& self.0.6.ready()
        &&& self.0.7.ready()
        &&& self.0.8.ready()
        &&& self.0.9.ready()
    }

    open spec fn outcome(&self, before: &I, res: Result<(O1, O2, O3, O4, O5, O6, O7, O8, O9, O10),
        E>, after: &I) -> bool {
        scan10(&self.0, before, before, (None, None, None, None, None, None, None, None, None,
            None), 0, Furthest::none(), res, after)
    }

    #[verifier::rlimit(40)]
    fn fab(&self, input: &mut &'a I) -> (res: Result<(O1, O2, O3, O4, O5, O6, O7, O8, O9, O10),
        E>) {
        let outer_startloc = *input;
        let mut r1: Option<O1> = None;
        let mut r2: Option<O2> = None;
        let mut r3: Option<O3> = None;
        let mut r4: Option<O4> = None;
        let mut r5: Option<O5> = None;
        let mut r6: Option<O6> = None;
        let mut r7: Option<O7> = None;
        let mut r8: Option<O8> = None;
        let mut r9: Option<O9> = None;
        let mut r10: Option<O10> = None;
        proof {
            lemma_suffix_of_self(outer_startloc.items());
        }
        loop
            invariant
                self.ready(),
                outer_startloc == *old(input),
                is_suffix(input.items(), outer_startloc.items()),
                forall|res: Result<(O1, O2, O3, O4, O5, O6, O7, O8, O9, O10), E>,
                    after: &I| #[trigger]
                    scan10(&self.0, outer_startloc, *input, (r1, r2, r3, r4, r5, r6, r7, r8, r9,
                        r10), 0, Furthest::none(), res, after)
                        ==> self.outcome(outer_startloc, res, after),
            decreases pending10((r1, r2, r3, r4, r5, r6, r7, r8, r9, r10)),
        {
            let startloc = *input;
            let mut best = Furthest::new();
            let ghost slots = (r1, r2, r3, r4, r5, r6, r7, r8, r9, r10);
            let ghost b0 = best;
            if r1.is_none() {
                match self.0.0.fab(input) {
                    Ok(out) => {
                        proof {
                            let next = *input;
                            assert(self.0.0.outcome(startloc, Ok(out), next));
                            lemma_suffix_of_suffix(
                                next.items(),
                                startloc.items(),
                                outer_startloc.items(),
                            );
                            assert forall|res: Result<(O1, O2, O3, O4, O5, O6, O7, O8, O9, O10),
                                E>, after: &I| #[trigger]
                                scan10(
                                    &self.0,
                                    outer_startloc,
                                    next,
                                    (Some(out), r2, r3, r4, r5, r6, r7, r8, r9, r10),
                                    0,
                                    Furthest::none(),
                                    res,
                                    after,
                                ) implies self.outcome(outer_startloc, res, after) by {
                                assert(scan10(
                                    &self.0,
                                    outer_startloc,
                                    startloc,
                                    slots,
                                    0,
                                    b0,
                                    res,
                                    after,
                                ));
                            }
                        }
                        r1 = Some(out);
                        continue ;
                    },
                    Err(err) => {
                        assert(self.0.0.outcome(startloc, Err(err), startloc));
                        best.note(err);
                        *input = startloc;
                    },
                }
            }
            let ghost b1 = best;
            assert(r1 is None ==> b1.err is Some);
            assert forall|res: Result<(O1, O2, O3, O4, O5, O6, O7, O8, O9, O10), E>,
                after: &I| #[trigger]
                scan10(&self.0, outer_startloc, startloc, slots, 1, b1, res, after) implies scan10(
                &self.0,
                outer_startloc,
                startloc,
                slots,
                0,
                b0,
                res,
                after,
            ) by {
            }
            if r2.is_none() {
                match self.0.1.fab(input) {
                    Ok(out) => {
                        proof {
                            let next = *input;
                            assert(self.0.1.outcome(startloc, Ok(out), next));
                            lemma_suffix_of_suffix(
                                next.items(),
                                startloc.items(),
                                outer_startloc.items(),
                            );
                            assert forall|res: Result<(O1, O2, O3, O4, O5, O6, O7, O8, O9, O10),
                                E>, after: &I| #[trigger]
                                scan10(
                                    &self.0,
                                    outer_startloc,
                                    next,
                                    (r1, Some(out), r3, r4, r5, r6, r7, r8, r9, r10),
                                    0,
                                    Furthest::none(),
                                    res,
                                    after,
                                ) implies self.outcome(outer_startloc, res, after) by {
                                assert(scan10(
                                    &self.0,
                                    outer_startloc,
                                    startloc,
                                    slots,
                                    1,
                                    b1,
                                    res,
                                    after,
                                ));
                            }
                        }
                        r2 = Some(out);
                        continue ;
                    },
                    Err(err) => {
                        assert(self.0.1.outcome(startloc, Err(err), startloc));
                        best.note(err);
                        *input = startloc;
                    },
                }
            }
            let ghost b2 = best;
            assert(r1 is None || r2 is None ==> b2.err is Some);
            assert forall|res: Result<(O1, O2, O3, O4, O5, O6, O7, O8, O9, O10), E>,
                after: &I| #[trigger]
                scan10(&self.0, outer_startloc, startloc, slots, 2, b2, res, after) implies scan10(
                &self.0,
                outer_startloc,
                startloc,
                slots,
                0,
                b0,
                res,
                after,
            ) by {
                assert(scan10(&self.0, outer_startloc, startloc, slots, 1, b1, res, after));
            }
            if r3.is_none() {
                match self.0.2.fab(input) {
                    Ok(out) => {
                        proof {
                            let next = *input;
                            assert(self.0.2.outcome(startloc, Ok(out), next));
                            lemma_suffix_of_suffix(
                                next.items(),
                                startloc.items(),
                                outer_startloc.items(),
                            );
                            assert forall|res: Result<(O1, O2, O3, O4, O5, O6, O7, O8, O9, O10),
                                E>, after: &I| #[trigger]
                                scan10(
                                    &self.0,
                                    outer_startloc,
                                    next,
                                    (r1, r2, Some(out), r4, r5, r6, r7, r8, r9, r10),
                                    0,
                                    Furthest::none(),
                                    res,
                                    after,
                                ) implies self.outcome(outer_startloc, res, after) by {
                                assert(scan10(
                                    &self.0,
                                    outer_startloc,
                                    startloc,
                                    slots,
                                    2,
                                    b2,
                                    res,
                                    after,
                                ));
                            }
                        }
                        r3 = Some(out);
                        continue ;
                    },
                    Err(err) => {
                        assert(self.0.2.outcome(startloc, Err(err), startloc));
                        best.note(err);
                        *input = startloc;
                    },
                }
            }
            let ghost b3 = best;
            assert(r1 is None || r2 is None || r3 is None ==> b3.err is Some);
            assert forall|res: Result<(O1, O2, O3, O4, O5, O6, O7, O8, O9, O10), E>,
                after: &I| #[trigger]
                scan10(&self.0, outer_startloc, startloc, slots, 3, b3, res, after) implies scan10(
                &self.0,
                outer_startloc,
                startloc,
                slots,
                0,
                b0,
                res,
                after,
            ) by {
                assert(scan10(&self.0, outer_startloc, startloc, slots, 2, b2, res, after));
            }
            if r4.is_none() {
                match self.0.3.fab(input) {
                    Ok(out) => {
                        proof {
                            let next = *input;
                            assert(self.0.3.outcome(startloc, Ok(out), next));
                            lemma_suffix_of_suffix(
                                next.items(),
                                startloc.items(),
                                outer_startloc.items(),
                            );
                            assert forall|res: Result<(O1, O2, O3, O4, O5, O6, O7, O8, O9, O10),
                                E>, after: &I| #[trigger]
                                scan10(
                                    &self.0,
                                    outer_startloc,
                                    next,
                                    (r1, r2, r3, Some(out), r5, r6, r7, r8, r9, r10),
                                    0,
                                    Furthest::none(),
                                    res,
                                    after,
                                ) implies self.outcome(outer_startloc, res, after) by {
                                assert(scan10(
                                    &self.0,
                                    outer_startloc,
                                    startloc,
                                    slots,
                                    3,
                                    b3,
                                    res,
                                    after,
                                ));
                            }
                        }
                        r4 = Some(out);
                        continue ;
                    },
                    Err(err) => {
                        assert(self.0.3.outcome(startloc, Err(err), startloc));
                        best.note(err);
                        *input = startloc;
                    },
                }
            }
            let ghost b4 = best;
            assert(r1 is None || r2 is None || r3 is None || r4 is None ==> b4.err is Some);
            assert forall|res: Result<(O1, O2, O3, O4, O5, O6, O7, O8, O9, O10), E>,
                after: &I| #[trigger]
                scan10(&self.0, outer_startloc, startloc, slots, 4, b4, res, after) implies scan10(
                &self.0,
                outer_startloc,
                startloc,
                slots,
                0,
                b0,
                res,
                after,
            ) by {
                assert(scan10(&self.0, outer_startloc, startloc, slots, 3, b3, res, after));
            }
            if r5.is_none() {
                match self.0.4.fab(input) {
                    Ok(out) => {
                        proof {
                            let next = *input;
                            assert(self.0.4.outcome(startloc, Ok(out), next));
                            lemma_suffix_of_suffix(
                                next.items(),
                                startloc.items(),
                                outer_startloc.items(),
                            );
                            assert forall|res: Result<(O1, O2, O3, O4, O5, O6, O7, O8, O9, O10),
                                E>, after: &I| #[trigger]
                                scan10(
                                    &self.0,
                                    outer_startloc,
                                    next,
                                    (r1, r2, r3, r4, Some(out), r6, r7, r8, r9, r10),
                                    0,
                                    Furthest::none(),
                                    res,
                                    after,
                                ) implies self.outcome(outer_startloc, res, after) by {
                                assert(scan10(
                                    &self.0,
                                    outer_startloc,
                                    startloc,
                                    slots,
                                    4,
                                    b4,
                                    res,
                                    after,
                                ));
                            }
                        }
                        r5 = Some(out);
                        continue ;
                    },
                    Err(err) => {
                        assert(self.0.4.outcome(startloc, Err(err), startloc));
                        best.note(err);
                        *input = startloc;
                    },
                }
            }
            let ghost b5 = best;
            assert(r1 is None || r2 is None || r3 is None || r4 is None || r5 is None
                ==> b5.err is Some);
            assert forall|res: Result<(O1, O2, O3, O4, O5, O6, O7, O8, O9, O10), E>,
                after: &I| #[trigger]
                scan10(&self.0, outer_startloc, startloc, slots, 5, b5, res, after) implies scan10(
                &self.0,
                outer_startloc,
                startloc,
                slots,
                0,
                b0,
                res,
                after,
            ) by {
                assert(scan10(&self.0, outer_startloc, startloc, slots, 4, b4, res, after));
            }
            if r6.is_none() {
                match self.0.5.fab(input) {
                    Ok(out) => {
                        proof {
                            let next = *input;
                            assert(self.0.5.outcome(startloc, Ok(out), next));
                            lemma_suffix_of_suffix(
                                next.items(),
                                startloc.items(),
                                outer_startloc.items(),
                            );
                            assert forall|res: Result<(O1, O2, O3, O4, O5, O6, O7, O8, O9, O10),
                                E>, after: &I| #[trigger]
                                scan10(
                                    &self.0,
                                    outer_startloc,
                                    next,
                                    (r1, r2, r3, r4, r5, Some(out), r7, r8, r9, r10),
                                    0,
                                    Furthest::none(),
                                    res,
                                    after,
                                ) implies self.outcome(outer_startloc, res, after) by {
                                assert(scan10(
                                    &self.0,
                                    outer_startloc,
                                    startloc,
                                    slots,
                                    5,
                                    b5,
                                    res,
                                    after,
                                ));
                            }
                        }
                        r6 = Some(out);
                        continue ;
                    },
                    Err(err) => {
                        assert(self.0.5.outcome(startloc, Err(err), startloc));
                        best.note(err);
                        *input = startloc;
                    },
                }
            }
            let ghost b6 = best;
            assert(r1 is None || r2 is None || r3 is None || r4 is None || r5 is None
                || r6 is None ==> b6.err is Some);
            assert forall|res: Result<(O1, O2, O3, O4, O5, O6, O7, O8, O9, O10), E>,
                after: &I| #[trigger]
                scan10(&self.0, outer_startloc, startloc, slots, 6, b6, res, after) implies scan10(
                &self.0,
                outer_startloc,
                startloc,
                slots,
                0,
                b0,
                res,
                after,
            ) by {
                assert(scan10(&self.0, outer_startloc, startloc, slots, 5, b5, res, after));
            }
            if r7.is_none() {
                match self.0.6.fab(input) {
                    Ok(out) => {
                        proof {
                            let next = *input;
                            assert(self.0.6.outcome(startloc, Ok(out), next));
                            lemma_suffix_of_suffix(
                                next.items(),
                                startloc.items(),
                                outer_startloc.items(),
                            );
                            assert forall|res: Result<(O1, O2, O3, O4, O5, O6, O7, O8, O9, O10),
                                E>, after: &I| #[trigger]
                                scan10(
                                    &self.0,
                                    outer_startloc,
                                    next,
                                    (r1, r2, r3, r4, r5, r6, Some(out), r8, r9, r10),
                                    0,
                                    Furthest::none(),
                                    res,
                                    after,
                                ) implies self.outcome(outer_startloc, res, after) by {
                                assert(scan10(
                                    &self.0,
                                    outer_startloc,
                                    startloc,
                                    slots,
                                    6,
                                    b6,
                                    res,
                                    after,
                                ));
                            }
                        }
                        r7 = Some(out);
                        continue ;
                    },
                    Err(err) => {
                        assert(self.0.6.outcome(startloc, Err(err), startloc));
                        best.note(err);
                        *input = startloc;
                    },
                }
            }
            let ghost b7 = best;
            assert(r1 is None || r2 is None || r3 is None || r4 is None || r5 is None
                || r6 is None || r7 is None ==> b7.err is Some);
            assert forall|res: Result<(O1, O2, O3, O4, O5, O6, O7, O8, O9, O10), E>,
                after: &I| #[trigger]
                scan10(&self.0, outer_startloc, startloc, slots, 7, b7, res, after) implies scan10(
                &self.0,
                outer_startloc,
                startloc,
                slots,
                0,
                b0,
                res,
                after,
            ) by {
                assert(scan10(&self.0, outer_startloc, startloc, slots, 6, b6, res, after));
            }
            if r8.is_none() {
                match self.0.7.fab(input) {
                    Ok(out) => {
                        proof {
                            let next = *input;
                            assert(self.0.7.outcome(startloc, Ok(out), next));
                            lemma_suffix_of_suffix(
                                next.items(),
                                startloc.items(),
                                outer_startloc.items(),
                            );
                            assert forall|res: Result<(O1, O2, O3, O4, O5, O6, O7, O8, O9, O10),
                                E>, after: &I| #[trigger]
                                scan10(
                                    &self.0,
                                    outer_startloc,
                                    next,
                                    (r1, r2, r3, r4, r5, r6, r7, Some(out), r9, r10),
                                    0,
                                    Furthest::none(),
                                    res,
                                    after,
                                ) implies self.outcome(outer_startloc, res, after) by {
                                assert(scan10(
                                    &self.0,
                                    outer_startloc,
                                    startloc,
                                    slots,
                                    7,
                                    b7,
                                    res,
                                    after,
                                ));
                            }
                        }
                        r8 = Some(out);
                        continue ;
                    },
                    Err(err) => {
                        assert(self.0.7.outcome(startloc, Err(err), startloc));
                        best.note(err);
                        *input = startloc;
                    },
                }
            }
            let ghost b8 = best;
            assert(r1 is None || r2 is None || r3 is None || r4 is None || r5 is None
                || r6 is None || r7 is None || r8 is None ==> b8.err is Some);
            assert forall|res: Result<(O1, O2, O3, O4, O5, O6, O7, O8, O9, O10), E>,
                after: &I| #[trigger]
                scan10(&self.0, outer_startloc, startloc, slots, 8, b8, res, after) implies scan10(
                &self.0,
                outer_startloc,
                startloc,
                slots,
                0,
                b0,
                res,
                after,
            ) by {
                assert(scan10(&self.0, outer_startloc, startloc, slots, 7, b7, res, after));
            }
            if r9.is_none() {
                match self.0.8.fab(input) {
                    Ok(out) => {
                        proof {
                            let next = *input;
                            assert(self.0.8.outcome(startloc, Ok(out), next));
                            lemma_suffix_of_suffix(
                                next.items(),
                                startloc.items(),
                                outer_startloc.items(),
                            );
                            assert forall|res: Result<(O1, O2, O3, O4, O5, O6, O7, O8, O9, O10),
                                E>, after: &I| #[trigger]
                                scan10(
                                    &self.0,
                                    outer_startloc,
                                    next,
                                    (r1, r2, r3, r4, r5, r6, r7, r8, Some(out), r10),
                                    0,
                                    Furthest::none(),
                                    res,
                                    after,
                                ) implies self.outcome(outer_startloc, res, after) by {
                                assert(scan10(
                                    &self.0,
                                    outer_startloc,
                                    startloc,
                                    slots,
                                    8,
                                    b8,
                                    res,
                                    after,
                                ));
                            }
                        }
                        r9 = Some(out);
                        continue ;
                    },
                    Err(err) => {
                        assert(self.0.8.outcome(startloc, Err(err), startloc));
                        best.note(err);
                        *input = startloc;
                    },
                }
            }
            let ghost b9 = best;
            assert(r1 is None || r2 is None || r3 is None || r4 is None || r5 is None
                || r6 is None || r7 is None || r8 is None || r9 is None ==> b9.err is Some);
            assert forall|res: Result<(O1, O2, O3, O4, O5, O6, O7, O8, O9, O10), E>,
                after: &I| #[trigger]
                scan10(&self.0, outer_startloc, startloc, slots, 9, b9, res, after) implies scan10(
                &self.0,
                outer_startloc,
                startloc,
                slots,
                0,
                b0,
                res,
                after,
            ) by {
                assert(scan10(&self.0, outer_startloc, startloc, slots, 8, b8, res, after));
            }
            if r10.is_none() {
                match self.0.9.fab(input) {
                    Ok(out) => {
                        proof {
                            let next = *input;
                            assert(self.0.9.outcome(startloc, Ok(out), next));
                            lemma_suffix_of_suffix(
                                next.items(),
                                startloc.items(),
                                outer_startloc.items(),
                            );
                            assert forall|res: Result<(O1, O2, O3, O4, O5, O6, O7, O8, O9, O10),
                                E>, after: &I| #[trigger]
                                scan10(
                                    &self.0,
                                    outer_startloc,
                                    next,
                                    (r1, r2, r3, r4, r5, r6, r7, r8, r9, Some(out)),
                                    0,
                                    Furthest::none(),
                                    res,
                                    after,
                                ) implies self.outcome(outer_startloc, res, after) by {
                                assert(scan10(
                                    &self.0,
                                    outer_startloc,
                                    startloc,
                                    slots,
                                    9,
                                    b9,
                                    res,
                                    after,
                                ));
                            }
                        }
                        r10 = Some(out);
                        continue ;
                    },
                    Err(err) => {
                        assert(self.0.9.outcome(startloc, Err(err), startloc));
                        best.note(err);
                        *input = startloc;
                    },
                }
            }
            let ghost b10 = best;
            assert(r1 is None || r2 is None || r3 is None || r4 is None || r5 is None
                || r6 is None || r7 is None || r8 is None || r9 is None || r10 is None
                ==> b10.err is Some);
            assert forall|res: Result<(O1, O2, O3, O4, O5, O6, O7, O8, O9, O10), E>,
                after: &I| #[trigger]
                scan10(&self.0, outer_startloc, startloc, slots, 10, b10, res, after)
                    implies scan10(
                &self.0,
                outer_startloc,
                startloc,
                slots,
                0,
                b0,
                res,
                after,
            ) by {
                assert(scan10(&self.0, outer_startloc, startloc, slots, 9, b9, res, after));
            }
            match (r1, r2, r3, r4, r5, r6, r7, r8, r9, r10) {
                (Some(o1), Some(o2), Some(o3), Some(o4), Some(o5), Some(o6), Some(o7), Some(o8),
                    Some(o9), Some(o10)) => {
                    assert(scan10(
                        &self.0,
                        outer_startloc,
                        startloc,
                        slots,
                        10,
                        b10,
                        Ok((o1, o2, o3, o4, o5, o6, o7, o8, o9, o10)),
                        startloc,
                    ));
                    return Ok((o1, o2, o3, o4, o5, o6, o7, o8, o9, o10));
                },
                _ => {
                    *input = outer_startloc;
                    let err = best.into_error();
                    assert(scan10(
                        &self.0,
                        outer_startloc,
                        startloc,
                        slots,
                        10,
                        b10,
                        Err(err),
                        outer_startloc,
                    ));
                    return Err(err);
                },
            }
        }
    }
}

/// Marks the permutation of eleven parsers.
pub struct SeqAlt11<T1, T2, T3, T4, T5, T6, T7, T8, T9, T10, T11> {
    p1: PhantomData<T1>,
    p2: PhantomData<T2>,
    p3: PhantomData<T3>,
    p4: PhantomData<T4>,
    p5: PhantomData<T5>,
    p6: PhantomData<T6>,
    p7: PhantomData<T7>,
    p8: PhantomData<T8>,
    p9: PhantomData<T9>,
    p10: PhantomData<T10>,
    p11: PhantomData<T11>,
}

/// How many of eleven parsers have not succeeded yet.
pub open spec fn pending11<O1, O2, O3, O4, O5, O6, O7, O8, O9, O10, O11>(slots: (Option<O1>,
    Option<O2>, Option<O3>, Option<O4>, Option<O5>, Option<O6>, Option<O7>, Option<O8>, Option<O9>,
    Option<O10>, Option<O11>)) -> nat {
    (if slots.0 is None {
        1nat
    } else {
        0
    }) + (if slots.1 is None {
        1nat
    } else {
        0
    }) + (if slots.2 is None {
        1nat
    } else {
        0
    }) + (if slots.3 is None {
        1nat
    } else {
        0
    }) + (if slots.4 is None {
        1nat
    } else {
        0
    }) + (if slots.5 is None {
        1nat
    } else {
        0
    }) + (if slots.6 is None {
        1nat
    } else {
        0
    }) + (if slots.7 is None {
        1nat
    } else {
        0
    }) + (if slots.8 is None {
        1nat
    } else {
        0
    }) + (if slots.9 is None {
        1nat
    } else {
        0
    }) + (if slots.10 is None {
        1nat
    } else {
        0
    })
}

/// What a permutation of eleven parsers that started at `entry` may come to,
/// when it stands at `cur` with the values of `slots`, has tried there the
/// parsers before the one at `at`, and has noted `best`.
///
/// A parser that has a value is passed over. Where one of the others
/// succeeds, its value is kept and the parsers are tried anew from where it
/// left the cursor. Where it fails, its error is noted and the next is tried.
/// With all tried, the permutation returns the values if every parser has
/// one; else it fails with the error chosen, and the cursor is at `entry`.
pub open spec fn scan11<'a, I, E, O1, P1, T1, O2, P2, T2, O3, P3, T3, O4, P4, T4, O5, P5, T5, O6,
    P6, T6, O7, P7, T7, O8, P8, T8, O9, P9, T9, O10, P10, T10, O11, P11, T11>(
    parsers: &(P1, P2, P3, P4, P5, P6, P7, P8, P9, P10, P11),
    entry: &I,
    cur: &I,
    slots: (Option<O1>, Option<O2>, Option<O3>, Option<O4>, Option<O5>, Option<O6>, Option<O7>,
        Option<O8>, Option<O9>, Option<O10>, Option<O11>),
    at: nat,
    best: Furthest<E>,
    res: Result<(O1, O2, O3, O4, O5, O6, O7, O8, O9, O10, O11), E>,
    after: &I,
) -> bool where
    I: ?Sized + Sequence,
    E: ParserError,
    P1: Parser<'a, I, O1, E, T1>,
    P2: Parser<'a, I, O2, E, T2>,
    P3: Parser<'a, I, O3, E, T3>,
    P4: Parser<'a, I, O4, E, T4>,
    P5: Parser<'a, I, O5, E, T5>,
    P6: Parser<'a, I, O6, E, T6>,
    P7: Parser<'a, I, O7, E, T7>,
    P8: Parser<'a, I, O8, E, T8>,
    P9: Parser<'a, I, O9, E, T9>,
    P10: Parser<'a, I, O10, E, T10>,
    P11: Parser<'a, I, O11, E, T11>,

    decreases pending11(slots), 11 - at,
{
    if at == 0 {
        if slots.0 is Some {
            scan11(parsers, entry, cur, slots, 1, best, res, after)
        } else {
            ||| exists|out: O1, next: &I|
                {
                    &&& #[trigger] parsers.0.outcome(cur, Ok(out), next)
                    &&& scan11(
                        parsers,
                        entry,
                        next,
                        (Some(out), slots.1, slots.2, slots.3, slots.4, slots.5, slots.6, slots.7,
                            slots.8, slots.9, slots.10),
                        0,
                        Furthest::none(),
                        res,
                        after,
                    )
                }
            ||| exists|err: E|
                {
                    &&& #[trigger] parsers.0.outcome(cur, Err(err), cur)
                    &&& scan11(parsers, entry, cur, slots, 1, best.noted(err), res, after)
                }
        }
    } else if at == 1 {
        if slots.1 is Some {
            scan11(parsers, entry, cur, slots, 2, best, res, after)
        } else {
            ||| exists|out: O2, next: &I|
                {
                    &&& #[trigger] parsers.1.outcome(cur, Ok(out), next)
                    &&& scan11(
                        parsers,
                        entry,
                        next,
                        (slots.0, Some(out), slots.2, slots.3, slots.4, slots.5, slots.6, slots.7,
                            slots.8, slots.9, slots.10),
                        0,
                        Furthest::none(),
                        res,
                        after,
                    )
                }
            ||| exists|err: E|
                {
                    &&& #[trigger] parsers.1.outcome(cur, Err(err), cur)
                    &&& scan11(parsers, entry, cur, slots, 2, best.noted(err), res, after)
                }
        }
    } else if at == 2 {
        if slots.2 is Some {
            scan11(parsers, entry, cur, slots, 3, best, res, after)
        } else {
            ||| exists|out: O3, next: &I|
                {
                    &&& #[trigger] parsers.2.outcome(cur, Ok(out), next)
                    &&& scan11(
                        parsers,
                        entry,
                        next,
                        (slots.0, slots.1, Some(out), slots.3, slots.4, slots.5, slots.6, slots.7,
                            slots.8, slots.9, slots.10),
                        0,
                        Furthest::none(),
                        res,
                        after,
                    )
                }
            ||| exists|err: E|
                {
                    &&& #[trigger] parsers.2.outcome(cur, Err(err), cur)
                    &&& scan11(parsers, entry, cur, slots, 3, best.noted(err), res, after)
                }
        }
    } else if at == 3 {
        if slots.3 is Some {
            scan11(parsers, entry, cur, slots, 4, best, res, after)
        } else {
            ||| exists|out: O4, next: &I|
                {
                    &&& #[trigger] parsers.3.outcome(cur, Ok(out), next)
                    &&& scan11(
                        parsers,
                        entry,
                        next,
                        (slots.0, slots.1, slots.2, Some(out), slots.4, slots.5, slots.6, slots.7,
                            slots.8, slots.9, slots.10),
                        0,
                        Furthest::none(),
                        res,
                        after,
                    )
                }
            ||| exists|err: E|
                {
                    &&& #[trigger] parsers.3.outcome(cur, Err(err), cur)
                    &&& scan11(parsers, entry, cur, slots, 4, best.noted(err), res, after)
                }
        }
    } else if at == 4 {
        if slots.4 is Some {
            scan11(parsers, entry, cur, slots, 5, best, res, after)
        } else {
            ||| exists|out: O5, next: &I|
                {
                    &&& #[trigger] parsers.4.outcome(cur, Ok(out), next)
                    &&& scan11(
                        parsers,
                        entry,
                        next,
                        (slots.0, slots.1, slots.2, slots.3, Some(out), slots.5, slots.6, slots.7,
                            slots.8, slots.9, slots.10),
                        0,
                        Furthest::none(),
                        res,
                        after,
                    )
                }
            ||| exists|err: E|
                {
                    &&& #[trigger] parsers.4.outcome(cur, Err(err), cur)
                    &&& scan11(parsers, entry, cur, slots, 5, best.noted(err), res, after)
                }
        }
    } else if at == 5 {
        if slots.5 is Some {
            scan11(parsers, entry, cur, slots, 6, best, res, after)
        } else {
            ||| exists|out: O6, next: &I|
                {
                    &&& #[trigger] parsers.5.outcome(cur, Ok(out), next)
                    &&& scan11(
                        parsers,
                        entry,
                        next,
                        (slots.0, slots.1, slots.2, slots.3, slots.4, Some(out), slots.6, slots.7,
                            slots.8, slots.9, slots.10),
                        0,
                        Furthest::none(),
                        res,
                        after,
                    )
                }
            ||| exists|err: E|
                {
                    &&& #[trigger] parsers.5.outcome(cur, Err(err), cur)
                    &&& scan11(parsers, entry, cur, slots, 6, best.noted(err), res, after)
                }
        }
    } else if at == 6 {
        if slots.6 is Some {
            scan11(parsers, entry, cur, slots, 7, best, res, after)
        } else {
            ||| exists|out: O7, next: &I|
                {
                    &&& #[trigger] parsers.6.outcome(cur, Ok(out), next)
                    &&& scan11(
                        parsers,
                        entry,
                        next,
                        (slots.0, slots.1, slots.2, slots.3, slots.4, slots.5, Some(out), slots.7,
                            slots.8, slots.9, slots.10),
                        0,
                        Furthest::none(),
                        res,
                        after,
                    )
                }
            ||| exists|err: E|
                {
                    &&& #[trigger] parsers.6.outcome(cur, Err(err), cur)
                    &&& scan11(parsers, entry, cur, slots, 7, best.noted(err), res, after)
                }
        }
    } else if at == 7 {
        if slots.7 is Some {
            scan11(parsers, entry, cur, slots, 8, best, res, after)
        } else {
            ||| exists|out: O8, next: &I|
                {
                    &&& #[trigger] parsers.7.outcome(cur, Ok(out), next)
                    &&& scan11(
                        parsers,
                        entry,
                        next,
                        (slots.0, slots.1, slots.2, slots.3, slots.4, slots.5, slots.6, Some(out),
                            slots.8, slots.9, slots.10),
                        0,
                        Furthest::none(),
                        res,
                        after,
                    )
                }
            ||| exists|err: E|
                {
                    &&& #[trigger] parsers.7.outcome(cur, Err(err), cur)
                    &&& scan11(parsers, entry, cur, slots, 8, best.noted(err), res, after)
                }
        }
    } else if at == 8 {
        if slots.8 is Some {
            scan11(parsers, entry, cur, slots, 9, best, res, after)
        } else {
            ||| exists|out: O9, next: &I|
                {
                    &&& #[trigger] parsers.8.outcome(cur, Ok(out), next)
                    &&& scan11(
                        parsers,
                        entry,
                        next,
                        (slots.0, slots.1, slots.2, slots.3, slots.4, slots.5, slots.6, slots.7,
                            Some(out), slots.9, slots.10),
                        0,
                        Furthest::none(),
                        res,
                        after,
                    )
                }
            ||| exists|err: E|
                {
                    &&& #[trigger] parsers.8.outcome(cur, Err(err), cur)
                    &&& scan11(parsers, entry, cur, slots, 9, best.noted(err), res, after)
                }
        }
    } else if at == 9 {
        if slots.9 is Some {
            scan11(parsers, entry, cur, slots, 10, best, res, after)
        } else {
            ||| exists|out: O10, next: &I|
                {
                    &&& #[trigger] parsers.9.outcome(cur, Ok(out), next)
                    &&& scan11(
                        parsers,
                        entry,
                        next,
                        (slots.0, slots.1, slots.2, slots.3, slots.4, slots.5, slots.6, slots.7,
                            slots.8, Some(out), slots.10),
                        0,
                        Furthest::none(),
                        res,
                        after,
                    )
                }
            ||| exists|err: E|
                {
                    &&& #[trigger] parsers.9.outcome(cur, Err(err), cur)
                    &&& scan11(parsers, entry, cur, slots, 10, best.noted(err), res, after)
                }
        }
    } else if at == 10 {
        if slots.10 is Some {
            scan11(parsers, entry, cur, slots, 11, best, res, after)
        } else {
            ||| exists|out: O11, next: &I|
                {
                    &&& #[trigger] parsers.10.outcome(cur, Ok(out), next)
                    &&& scan11(
                        parsers,
                        entry,
                        next,
                        (slots.0, slots.1, slots.2, slots.3, slots.4, slots.5, slots.6, slots.7,
                            slots.8, slots.9, Some(out)),
                        0,
                        Furthest::none(),
                        res,
                        after,
                    )
                }
            ||| exists|err: E|
                {
                    &&& #[trigger] parsers.10.outcome(cur, Err(err), cur)
                    &&& scan11(parsers, entry, cur, slots, 11, best.noted(err), res, after)
                }
        }
    } else if pending11(slots) == 0 {
        &&& after == cur
        &&& res == Ok::<(O1, O2, O3, O4, O5, O6, O7, O8, O9, O10, O11), E>((slots.0.unwrap(),
            slots.1.unwrap(), slots.2.unwrap(), slots.3.unwrap(), slots.4.unwrap(),
            slots.5.unwrap(), slots.6.unwrap(), slots.7.unwrap(), slots.8.unwrap(),
            slots.9.unwrap(), slots.10.unwrap()))
    } else {
        &&& after == entry
        &&& res matches Err(err) && best.err == Some(err)
    }
}

/// The permutation of eleven parsers.
impl<'a, I: ?Sized + Sequence, E: ParserError, O1, P1, T1, O2, P2, T2, O3, P3, T3, O4, P4, T4, O5,
    P5, T5, O6, P6, T6, O7, P7, T7, O8, P8, T8, O9, P9, T9, O10, P10, T10, O11, P11, T11> Parser<
    'a,
    I,
    (O1, O2, O3, O4, O5, O6, O7, O8, O9, O10, O11),
    E,
    SeqAlt11<T1, T2, T3, T4, T5, T6, T7, T8, T9, T10, T11>,
> for Permutation<(P1, P2, P3, P4, P5, P6, P7, P8, P9, P10, P11)> where
    P1: Parser<'a, I, O1, E, T1>,
    P2: Parser<'a, I, O2, E, T2>,
    P3: Parser<'a, I, O3, E, T3>,
    P4: Parser<'a, I, O4, E, T4>,
    P5: Parser<'a, I, O5, E, T5>,
    P6: Parser<'a, I, O6, E, T6>,
    P7: Parser<'a, I, O7, E, T7>,
    P8: Parser<'a, I, O8, E, T8>,
    P9: Parser<'a, I, O9, E, T9>,
    P10: Parser<'a, I, O10, E, T10>,
    P11: Parser<'a, I, O11, E, T11>,
 {
    open spec fn ready(&self) -> bool {
        &&& self.0.0.ready()
        &&& self.0.1.ready()
        &&& self.0.2.ready()
        &&& self.0.3.ready()
        &&& self.0.4.ready()
        &&& self.0.5.ready()
        &&& self.0.6.ready()
        &&& self.0.7.ready()
        &&& self.0.8.ready()
        &&& self.0.9.ready()
        &&& self.0.10.ready()
    }

    open spec fn outcome(&self, before: &I, res: Result<(O1, O2, O3, O4, O5, O6, O7, O8, O9, O10,
        O11), E>, after: &I) -> bool {
        scan11(&self.0, before, before, (None, None, None, None, None, None, None, None, None,
            None, None), 0, Furthest::none(), res, after)
    }

    #[verifier::rlimit(60)]
    fn fab(&self, input: &mut &'a I) -> (res: Result<(O1, O2, O3, O4, O5, O6, O7, O8, O9, O10,
        O11), E>) {
        let outer_startloc = *input;
        let mut r1: Option<O1> = None;
        let mut r2: Option<O2> = None;
        let mut r3: Option<O3> = None;
        let mut r4: Option<O4> = None;
        let mut r5: Option<O5> = None;
        let mut r6: Option<O6> = None;
        let mut r7: Option<O7> = None;
        let mut r8: Option<O8> = None;
        let mut r9: Option<O9> = None;
        let mut r10: Option<O10> = None;
        let mut r11: Option<O11> = None;
        proof {
            lemma_suffix_of_self(outer_startloc.items());
        }
        loop
            invariant
                self.ready(),
                outer_startloc == *old(input),
                is_suffix(input.items(), outer_startloc.items()),
                forall|res: Result<(O1, O2, O3, O4, O5, O6, O7, O8, O9, O10, O11), E>,
                    after: &I| #[trigger]
                    scan11(&self.0, outer_startloc, *input, (r1, r2, r3, r4, r5, r6, r7, r8, r9,
                        r10, r11), 0, Furthest::none(), res, after)
                        ==> self.outcome(outer_startloc, res, after),
            decreases pending11((r1, r2, r3, r4, r5, r6, r7, r8, r9, r10, r11)),
        {
            let startloc = *input;
            let mut best = Furthest::new();
            let ghost slots = (r1, r2, r3, r4, r5, r6, r7, r8, r9, r10, r11);
            let ghost b0 = best;
            if r1.is_none() {
                match self.0.0.fab(input) {
                    Ok(out) => {
                        proof {
                            let next = *input;
                            assert(self.0.0.outcome(startloc, Ok(out), next));
                            lemma_suffix_of_suffix(
                                next.items(),
                                startloc.items(),
                                outer_startloc.items(),
                            );
                            assert forall|res: Result<(O1, O2, O3, O4, O5, O6, O7, O8, O9, O10,
                                O11), E>, after: &I| #[trigger]
                                scan11(
                                    &self.0,
                                    outer_startloc,
                                    next,
                                    (Some(out), r2, r3, r4, r5, r6, r7, r8, r9, r10, r11),
                                    0,
                                    Furthest::none(),
                                    res,
                                    after,
                                ) implies self.outcome(outer_startloc, res, after) by {
                                assert(scan11(
                                    &self.0,
                                    outer_startloc,
                                    startloc,
                                    slots,
                                    0,
                                    b0,
                                    res,
                                    after,
                                ));
                            }
                        }
                        r1 = Some(out);
                        continue ;
                    },
                    Err(err) => {
                        assert(self.0.0.outcome(startloc, Err(err), startloc));
                        best.note(err);
                        *input = startloc;
                    },
                }
            }
            let ghost b1 = best;
            assert(r1 is None ==> b1.err is Some);
            assert forall|res: Result<(O1, O2, O3, O4, O5, O6, O7, O8, O9, O10, O11), E>,
                after: &I| #[trigger]
                scan11(&self.0, outer_startloc, startloc, slots, 1, b1, res, after) implies scan11(
                &self.0,
                outer_startloc,
                startloc,
                slots,
                0,
                b0,
                res,
                after,
            ) by {
            }
            if r2.is_none() {
                match self.0.1.fab(input) {
                    Ok(out) => {
                        proof {
                            let next = *input;
                            assert(self.0.1.outcome(startloc, Ok(out), next));
                            lemma_suffix_of_suffix(
                                next.items(),
                                startloc.items(),
                                outer_startloc.items(),
                            );
                            assert forall|res: Result<(O1, O2, O3, O4, O5, O6, O7, O8, O9, O10,
                                O11), E>, after: &I| #[trigger]
                                scan11(
                                    &self.0,
                                    outer_startloc,
                                    next,
                                    (r1, Some(out), r3, r4, r5, r6, r7, r8, r9, r10, r11),
                                    0,
                                    Furthest::none(),
                                    res,
                                    after,
                                ) implies self.outcome(outer_startloc, res, after) by {
                                assert(scan11(
                                    &self.0,
                                    outer_startloc,
                                    startloc,
                                    slots,
                                    1,
                                    b1,
                                    res,
                                    after,
                                ));
                            }
                        }
                        r2 = Some(out);
                        continue ;
                    },
                    Err(err) => {
                        assert(self.0.1.outcome(startloc, Err(err), startloc));
                        best.note(err);
                        *input = startloc;
                    },
                }
            }
            let ghost b2 = best;
            assert(r1 is None || r2 is None ==> b2.err is Some);
            assert forall|res: Result<(O1, O2, O3, O4, O5, O6, O7, O8, O9, O10, O11), E>,
                after: &I| #[trigger]
                scan11(&self.0, outer_startloc, startloc, slots, 2, b2, res, after) implies scan11(
                &self.0,
                outer_startloc,
                startloc,
                slots,
                0,
                b0,
                res,
                after,
            ) by {
                assert(scan11(&self.0, outer_startloc, startloc, slots, 1, b1, res, after));
            }
            if r3.is_none() {
                match self.0.2.fab(input) {
                    Ok(out) => {
                        proof {
                            let next = *input;
                            assert(self.0.2.outcome(startloc, Ok(out), next));
                            lemma_suffix_of_suffix(
                                next.items(),
                                startloc.items(),
                                outer_startloc.items(),
                            );
                            assert forall|res: Result<(O1, O2, O3, O4, O5, O6, O7, O8, O9, O10,
                                O11), E>, after: &I| #[trigger]
                                scan11(
                                    &self.0,
                                    outer_startloc,
                                    next,
                                    (r1, r2, Some(out), r4, r5, r6, r7, r8, r9, r10, r11),
                                    0,
                                    Furthest::none(),
                                    res,
                                    after,
                                ) implies self.outcome(outer_startloc, res, after) by {
                                assert(scan11(
                                    &self.0,
                                    outer_startloc,
                                    startloc,
                                    slots,
                                    2,
                                    b2,
                                    res,
                                    after,
                                ));
                            }
                        }
                        r3 = Some(out);
                        continue ;
                    },
                    Err(err) => {
                        assert(self.0.2.outcome(startloc, Err(err), startloc));
                        best.note(err);
                        *input = startloc;
                    },
                }
            }
            let ghost b3 = best;
            assert(r1 is None || r2 is None || r3 is None ==> b3.err is Some);
            assert forall|res: Result<(O1, O2, O3, O4, O5, O6, O7, O8, O9, O10, O11), E>,
                after: &I| #[trigger]
                scan11(&self.0, outer_startloc, startloc, slots, 3, b3, res, after) implies scan11(
                &self.0,
                outer_startloc,
                startloc,
                slots,
                0,
                b0,
                res,
                after,
            ) by {
                assert(scan11(&self.0, outer_startloc, startloc, slots, 2, b2, res, after));
            }
            if r4.is_none() {
                match self.0.3.fab(input) {
                    Ok(out) => {
                        proof {
                            let next = *input;
                            assert(self.0.3.outcome(startloc, Ok(out), next));
                            lemma_suffix_of_suffix(
                                next.items(),
                                startloc.items(),
                                outer_startloc.items(),
                            );
                            assert forall|res: Result<(O1, O2, O3, O4, O5, O6, O7, O8, O9, O10,
                                O11), E>, after: &I| #[trigger]
                                scan11(
                                    &self.0,
                                    outer_startloc,
                                    next,
                                    (r1, r2, r3, Some(out), r5, r6, r7, r8, r9, r10, r11),
                                    0,
                                    Furthest::none(),
                                    res,
                                    after,
                                ) implies self.outcome(outer_startloc, res, after) by {
                                assert(scan11(
                                    &self.0,
                                    outer_startloc,
                                    startloc,
                                    slots,
                                    3,
                                    b3,
                                    res,
                                    after,
                                ));
                            }
                        }
                        r4 = Some(out);
                        continue ;
                    },
                    Err(err) => {
                        assert(self.0.3.outcome(startloc, Err(err), startloc));
                        best.note(err);
                        *input = startloc;
                    },
                }
            }
            let ghost b4 = best;
            assert(r1 is None || r2 is None || r3 is None || r4 is None ==> b4.err is Some);
            assert forall|res: Result<(O1, O2, O3, O4, O5, O6, O7, O8, O9, O10, O11), E>,
                after: &I| #[trigger]
                scan11(&self.0, outer_startloc, startloc, slots, 4, b4, res, after) implies scan11(
                &self.0,
                outer_startloc,
                startloc,
                slots,
                0,
                b0,
                res,
                after,
            ) by {
                assert(scan11(&self.0, outer_startloc, startloc, slots, 3, b3, res, after));
            }
            if r5.is_none() {
                match self.0.4.fab(input) {
                    Ok(out) => {
                        proof {
                            let next = *input;
                            assert(self.0.4.outcome(startloc, Ok(out), next));
                            lemma_suffix_of_suffix(
                                next.items(),
                                startloc.items(),
                                outer_startloc.items(),
                            );
                            assert forall|res: Result<(O1, O2, O3, O4, O5, O6, O7, O8, O9, O10,
                                O11), E>, after: &I| #[trigger]
                                scan11(
                                    &self.0,
                                    outer_startloc,
                                    next,
                                    (r1, r2, r3, r4, Some(out), r6, r7, r8, r9, r10, r11),
                                    0,
                                    Furthest::none(),
                                    res,
                                    after,
                                ) implies self.outcome(outer_startloc, res, after) by {
                                assert(scan11(
                                    &self.0,
                                    outer_startloc,
                                    startloc,
                                    slots,
                                    4,
                                    b4,
                                    res,
                                    after,
                                ));
                            }
                        }
                        r5 = Some(out);
                        continue ;
                    },
                    Err(err) => {
                        assert(self.0.4.outcome(startloc, Err(err), startloc));
                        best.note(err);
                        *input = startloc;
                    },
                }
            }
            let ghost b5 = best;
            assert(r1 is None || r2 is None || r3 is None || r4 is None || r5 is None
                ==> b5.err is Some);
            assert forall|res: Result<(O1, O2, O3, O4, O5, O6, O7, O8, O9, O10, O11), E>,
                after: &I| #[trigger]
                scan11(&self.0, outer_startloc, startloc, slots, 5, b5, res, after) implies scan11(
                &self.0,
                outer_startloc,
                startloc,
                slots,
                0,
                b0,
                res,
                after,
            ) by {
                assert(scan11(&self.0, outer_startloc, startloc, slots, 4, b4, res, after));
            }
            if r6.is_none() {
                match self.0.5.fab(input) {
                    Ok(out) => {
                        proof {
                            let next = *input;
                            assert(self.0.5.outcome(startloc, Ok(out), next));
                            lemma_suffix_of_suffix(
                                next.items(),
                                startloc.items(),
                                outer_startloc.items(),
                            );
                            assert forall|res: Result<(O1, O2, O3, O4, O5, O6, O7, O8, O9, O10,
                                O11), E>, after: &I| #[trigger]
                                scan11(
                                    &self.0,
                                    outer_startloc,
                                    next,
                                    (r1, r2, r3, r4, r5, Some(out), r7, r8, r9, r10, r11),
                                    0,
                                    Furthest::none(),
                                    res,
                                    after,
                                ) implies self.outcome(outer_startloc, res, after) by {
                                assert(scan11(
                                    &self.0,
                                    outer_startloc,
                                    startloc,
                                    slots,
                                    5,
                                    b5,
                                    res,
                                    after,
                                ));
                            }
                        }
                        r6 = Some(out);
                        continue ;
                    },
                    Err(err) => {
                        assert(self.0.5.outcome(startloc, Err(err), startloc));
                        best.note(err);
                        *input = startloc;
                    },
                }
            }
            let ghost b6 = best;
            assert(r1 is None || r2 is None || r3 is None || r4 is None || r5 is None
                || r6 is None ==> b6.err is Some);
            assert forall|res: Result<(O1, O2, O3, O4, O5, O6, O7, O8, O9, O10, O11), E>,
                after: &I| #[trigger]
                scan11(&self.0, outer_startloc, startloc, slots, 6, b6, res, after) implies scan11(
                &self.0,
                outer_startloc,
                startloc,
                slots,
                0,
                b0,
                res,
                after,
            ) by {
                assert(scan11(&self.0, outer_startloc, startloc, slots, 5, b5, res, after));
            }
            if r7.is_none() {
                match self.0.6.fab(input) {
                    Ok(out) => {
                        proof {
                            let next = *input;
                            assert(self.0.6.outcome(startloc, Ok(out), next));
                            lemma_suffix_of_suffix(
                                next.items(),
                                startloc.items(),
                                outer_startloc.items(),
                            );
                            assert forall|res: Result<(O1, O2, O3, O4, O5, O6, O7, O8, O9, O10,
                                O11), E>, after: &I| #[trigger]
                                scan11(
                                    &self.0,
                                    outer_startloc,
                                    next,
                                    (r1, r2, r3, r4, r5, r6, Some(out), r8, r9, r10, r11),
                                    0,
                                    Furthest::none(),
                                    res,
                                    after,
                                ) implies self.outcome(outer_startloc, res, after) by {
                                assert(scan11(
                                    &self.0,
                                    outer_startloc,
                                    startloc,
                                    slots,
                                    6,
                                    b6,
                                    res,
                                    after,
                                ));
                            }
                        }
                        r7 = Some(out);
                        continue ;
                    },
                    Err(err) => {
                        assert(self.0.6.outcome(startloc, Err(err), startloc));
                        best.note(err);
                        *input = startloc;
                    },
                }
            }
            let ghost b7 = best;
            assert(r1 is None || r2 is None || r3 is None || r4 is None || r5 is None
                || r6 is None || r7 is None ==> b7.err is Some);
            assert forall|res: Result<(O1, O2, O3, O4, O5, O6, O7, O8, O9, O10, O11), E>,
                after: &I| #[trigger]
                scan11(&self.0, outer_startloc, startloc, slots, 7, b7, res, after) implies scan11(
                &self.0,
                outer_startloc,
                startloc,
                slots,
                0,
                b0,
                res,
                after,
            ) by {
                assert(scan11(&self.0, outer_startloc, startloc, slots, 6, b6, res, after));
            }
            if r8.is_none() {
                match self.0.7.fab(input) {
                    Ok(out) => {
                        proof {
                            let next = *input;
                            assert(self.0.7.outcome(startloc, Ok(out), next));
                            lemma_suffix_of_suffix(
                                next.items(),
                                startloc.items(),
                                outer_startloc.items(),
                            );
                            assert forall|res: Result<(O1, O2, O3, O4, O5, O6, O7, O8, O9, O10,
                                O11), E>, after: &I| #[trigger]
                                scan11(
                                    &self.0,
                                    outer_startloc,
                                    next,
                                    (r1, r2, r3, r4, r5, r6, r7, Some(out), r9, r10, r11),
                                    0,
                                    Furthest::none(),
                                    res,
                                    after,
                                ) implies self.outcome(outer_startloc, res, after) by {
                                assert(scan11(
                                    &self.0,
                                    outer_startloc,
                                    startloc,
                                    slots,
                                    7,
                                    b7,
                                    res,
                                    after,
                                ));
                            }
                        }
                        r8 = Some(out);
                        continue ;
                    },
                    Err(err) => {
                        assert(self.0.7.outcome(startloc, Err(err), startloc));
                        best.note(err);
                        *input = startloc;
                    },
                }
            }
            let ghost b8 = best;
            assert(r1 is None || r2 is None || r3 is None || r4 is None || r5 is None
                || r6 is None || r7 is None || r8 is None ==> b8.err is Some);
            assert forall|res: Result<(O1, O2, O3, O4, O5, O6, O7, O8, O9, O10, O11), E>,
                after: &I| #[trigger]
                scan11(&self.0, outer_startloc, startloc, slots, 8, b8, res, after) implies scan11(
                &self.0,
                outer_startloc,
                startloc,
                slots,
                0,
                b0,
                res,
                after,
            ) by {
                assert(scan11(&self.0, outer_startloc, startloc, slots, 7, b7, res, after));
            }
            if r9.is_none() {
                match self.0.8.fab(input) {
                    Ok(out) => {
                        proof {
                            let next = *input;
                            assert(self.0.8.outcome(startloc, Ok(out), next));
                            lemma_suffix_of_suffix(
                                next.items(),
                                startloc.items(),
                                outer_startloc.items(),
                            );
                            assert forall|res: Result<(O1, O2, O3, O4, O5, O6, O7, O8, O9, O10,
                                O11), E>, after: &I| #[trigger]
                                scan11(
                                    &self.0,
                                    outer_startloc,
                                    next,
                                    (r1, r2, r3, r4, r5, r6, r7, r8, Some(out), r10, r11),
                                    0,
                                    Furthest::none(),
                                    res,
                                    after,
                                ) implies self.outcome(outer_startloc, res, after) by {
                                assert(scan11(
                                    &self.0,
                                    outer_startloc,
                                    startloc,
                                    slots,
                                    8,
                                    b8,
                                    res,
                                    after,
                                ));
                            }
                        }
                        r9 = Some(out);
                        continue ;
                    },
                    Err(err) => {
                        assert(self.0.8.outcome(startloc, Err(err), startloc));
                        best.note(err);
                        *input = startloc;
                    },
                }
            }
            let ghost b9 = best;
            assert(r1 is None || r2 is None || r3 is None || r4 is None || r5 is None
                || r6 is None || r7 is None || r8 is None || r9 is None ==> b9.err is Some);
            assert forall|res: Result<(O1, O2, O3, O4, O5, O6, O7, O8, O9, O10, O11), E>,
                after: &I| #[trigger]
                scan11(&self.0, outer_startloc, startloc, slots, 9, b9, res, after) implies scan11(
                &self.0,
                outer_startloc,
                startloc,
                slots,
                0,
                b0,
                res,
                after,
            ) by {
                assert(scan11(&self.0, outer_startloc, startloc, slots, 8, b8, res, after));
            }
            if r10.is_none() {
                match self.0.9.fab(input) {
                    Ok(out) => {
                        proof {
                            let next = *input;
                            assert(self.0.9.outcome(startloc, Ok(out), next));
                            lemma_suffix_of_suffix(
                                next.items(),
                                startloc.items(),
                                outer_startloc.items(),
                            );
                            assert forall|res: Result<(O1, O2, O3, O4, O5, O6, O7, O8, O9, O10,
                                O11), E>, after: &I| #[trigger]
                                scan11(
                                    &self.0,
                                    outer_startloc,
                                    next,
                                    (r1, r2, r3, r4, r5, r6, r7, r8, r9, Some(out), r11),
                                    0,
                                    Furthest::none(),
                                    res,
                                    after,
                                ) implies self.outcome(outer_startloc, res, after) by {
                                assert(scan11(
                                    &self.0,
                                    outer_startloc,
                                    startloc,
                                    slots,
                                    9,
                                    b9,
                                    res,
                                    after,
                                ));
                            }
                        }
                        r10 = Some(out);
                        continue ;
                    },
                    Err(err) => {
                        assert(self.0.9.outcome(startloc, Err(err), startloc));
                        best.note(err);
                        *input = startloc;
                    },
                }
            }
            let ghost b10 = best;
            assert(r1 is None || r2 is None || r3 is None || r4 is None || r5 is None
                || r6 is None || r7 is None || r8 is None || r9 is None || r10 is None
                ==> b10.err is Some);
            assert forall|res: Result<(O1, O2, O3, O4, O5, O6, O7, O8, O9, O10, O11), E>,
                after: &I| #[trigger]
                scan11(&self.0, outer_startloc, startloc, slots, 10, b10, res, after)
                    implies scan11(
                &self.0,
                outer_startloc,
                startloc,
                slots,
                0,
                b0,
                res,
                after,
            ) by {
                assert(scan11(&self.0, outer_startloc, startloc, slots, 9, b9, res, after));
            }
            if r11.is_none() {
                match self.0.10.fab(input) {
                    Ok(out) => {
                        proof {
                            let next = *input;
                            assert(self.0.10.outcome(startloc, Ok(out), next));
                            lemma_suffix_of_suffix(
                                next.items(),
                                startloc.items(),
                                outer_startloc.items(),
                            );
                            assert forall|res: Result<(O1, O2, O3, O4, O5, O6, O7, O8, O9, O10,
                                O11), E>, after: &I| #[trigger]
                                scan11(
                                    &self.0,
                                    outer_startloc,
                                    next,
                                    (r1, r2, r3, r4, r5, r6, r7, r8, r9, r10, Some(out)),
                                    0,
                                    Furthest::none(),
                                    res,
                                    after,
                                ) implies self.outcome(outer_startloc, res, after) by {
                                assert(scan11(
                                    &self.0,
                                    outer_startloc,
                                    startloc,
                                    slots,
                                    10,
                                    b10,
                                    res,
                                    after,
                                ));
                            }
                        }
                        r11 = Some(out);
                        continue ;
                    },
                    Err(err) => {
                        assert(self.0.10.outcome(startloc, Err(err), startloc));
                        best.note(err);
                        *input = startloc;
                    },
                }
            }
            let ghost b11 = best;
            assert(r1 is None || r2 is None || r3 is None || r4 is None || r5 is None
                || r6 is None || r7 is None || r8 is None || r9 is None || r10 is None
                || r11 is None ==> b11.err is Some);
            assert forall|res: Result<(O1, O2, O3, O4, O5, O6, O7, O8, O9, O10, O11), E>,
                after: &I| #[trigger]
                scan11(&self.0, outer_startloc, startloc, slots, 11, b11, res, after)
                    implies scan11(
                &self.0,
                outer_startloc,
                startloc,
                slots,
                0,
                b0,
                res,
                after,
            ) by {
                assert(scan11(&self.0, outer_startloc, startloc, slots, 10, b10, res, after));
            }
            match (r1, r2, r3, r4, r5, r6, r7, r8, r9, r10, r11) {
                (Some(o1), Some(o2), Some(o3), Some(o4), Some(o5), Some(o6), Some(o7), Some(o8),
                    Some(o9), Some(o10), Some(o11)) => {
                    assert(scan11(
                        &self.0,
                        outer_startloc,
                        startloc,
                        slots,
                        11,
                        b11,
                        Ok((o1, o2, o3, o4, o5, o6, o7, o8, o9, o10, o11)),
                        startloc,
                    ));
                    return Ok((o1, o2, o3, o4, o5, o6, o7, o8, o9, o10, o11));
                },
                _ => {
                    *input = outer_startloc;
                    let err = best.into_error();
                    assert(scan11(
                        &self.0,
                        outer_startloc,
                        startloc,
                        slots,
                        11,
                        b11,
                        Err(err),
                        outer_startloc,
                    ));
                    return Err(err);
                },
            }
        }
    }
}


} // verus!
