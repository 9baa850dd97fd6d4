//! Alternation, and the choice among the errors of parsers that all failed.

use crate::error::ParserError;
use crate::sequence::Sequence;
use crate::Parser;
use std::marker::PhantomData;
use vstd::prelude::*;

verus! {

/// The parser that tries the parsers of a tuple in turn.
pub struct Alt<T>(pub T);

/// The parser that runs the parsers of a tuple in any order.
pub struct Permutation<T>(pub T);

/// The error that came furthest among those noted, and how far it came.
pub struct Furthest<E> {
    pub loc: Option<usize>,
    pub err: Option<E>,
}

impl<E: ParserError> Furthest<E> {
    /// Nothing noted yet.
    pub open spec fn none() -> Self {
        Furthest { loc: None, err: None }
    }

    /// The state after `err` is noted. An error with a location takes the
    /// place of what was noted where none before it came further. An error
    /// without one takes the place of the error and leaves the location.
    pub open spec fn noted(self, err: E) -> Self {
        match err.location() {
            Some(at) => if self.loc is None || at >= self.loc.unwrap() {
                Furthest { loc: Some(at), err: Some(err) }
            } else {
                self
            },
            None => Furthest { loc: self.loc, err: Some(err) },
        }
    }

    pub fn new() -> (best: Self)
        ensures
            best == Self::none(),
    {
        Furthest { loc: None, err: None }
    }

    pub fn note(&mut self, err: E)
        ensures
            *final(self) == old(self).noted(err),
    {
        match err.get_loc() {
            Some(at) => {
                let further = match self.loc {
                    None => true,
                    Some(val) => at >= val,
                };
                if further {
                    self.loc = Some(at);
                    self.err = Some(err);
                }
            },
            None => {
                self.err = Some(err);
            },
        }
    }

    /// The error that was chosen.
    pub fn into_error(self) -> (err: E)
        requires
            self.err is Some,
        ensures
            self.err == Some(err),
    {
        self.err.unwrap()
    }
}

/// The state after the errors of `errs` are noted, first to last.
pub open spec fn chosen<E: ParserError>(errs: Seq<E>) -> Furthest<E>
    decreases errs.len(),
{
    if errs.len() == 0 {
        Furthest::none()
    } else {
        chosen(errs.drop_last()).noted(errs.last())
    }
}

/// Once an error is noted, an error is chosen.
pub proof fn lemma_chosen_some<E: ParserError>(errs: Seq<E>)
    ensures
        errs.len() > 0 ==> chosen(errs).err is Some,
        chosen(errs).loc is Some ==> chosen(errs).err is Some,
    decreases errs.len(),
{
    if errs.len() > 0 {
        lemma_chosen_some(errs.drop_last());
    }
}

/// Noting one more error.
pub proof fn lemma_chosen_push<E: ParserError>(errs: Seq<E>, err: E)
    ensures
        chosen(errs.push(err)) == chosen(errs).noted(err),
        chosen(errs.push(err)).err is Some,
{
    assert(errs.push(err).drop_last() =~= errs);
    lemma_chosen_some(errs.push(err));
}

/// The greatest of the locations of the errors of `errs`; `None` where no
/// error has a location.
pub open spec fn furthest_location<E: ParserError>(errs: Seq<E>) -> Option<usize>
    decreases errs.len(),
{
    if errs.len() == 0 {
        None
    } else {
        let before = furthest_location(errs.drop_last());
        match errs.last().location() {
            Some(at) => if before is None || at >= before.unwrap() {
                Some(at)
            } else {
                before
            },
            None => before,
        }
    }
}

/// The location that is kept while errors are noted is the greatest of
/// their locations: no error lies beyond it, and one lies at it.
pub proof fn lemma_furthest_location<E: ParserError>(errs: Seq<E>)
    ensures
        chosen(errs).loc == furthest_location(errs),
        forall|i: int|
            0 <= i < errs.len() ==> (#[trigger] errs[i].location() matches Some(at)
                ==> furthest_location(errs) matches Some(most) && at <= most),
        furthest_location(errs) is Some ==> exists|i: int|
            0 <= i < errs.len() && #[trigger] errs[i].location() == furthest_location(errs),
    decreases errs.len(),
{
    if errs.len() > 0 {
        let init = errs.drop_last();
        lemma_furthest_location(init);
        assert forall|i: int| 0 <= i < errs.len() implies (#[trigger] errs[i].location() matches Some(
            at,
        ) ==> furthest_location(errs) matches Some(most) && at <= most) by {
            if i < errs.len() - 1 {
                assert(init[i] == errs[i]);
            }
        }
        if furthest_location(errs) is Some {
            if errs.last().location() == furthest_location(errs) {
                assert(errs[errs.len() - 1].location() == furthest_location(errs));
            } else {
                let i = choose|i: int|
                    0 <= i < init.len() && #[trigger] init[i].location() == furthest_location(init);
                assert(errs[i].location() == furthest_location(errs));
            }
        }
    }
}

/// Furthest progress. Where at least one of the errors has a location,
/// and each error without one is followed by an error at the greatest
/// location, the error that is chosen lies at the greatest location.
pub proof fn lemma_chosen_is_furthest<E: ParserError>(errs: Seq<E>)
    requires
        exists|i: int| 0 <= i < errs.len() && (#[trigger] errs[i].location()) is Some,
        forall|j: int|
            0 <= j < errs.len() && (#[trigger] errs[j].location()) is None ==> exists|i: int|
                j < i < errs.len() && #[trigger] errs[i].location() == furthest_location(errs),
    ensures
        furthest_location(errs) is Some,
        chosen(errs).err matches Some(err) && err.location() == furthest_location(errs),
    decreases errs.len(),
{
    lemma_furthest_location(errs);
    let init = errs.drop_last();
    let last = errs.last();
    lemma_furthest_location(init);
    match last.location() {
        Some(at) => {
            let before = furthest_location(init);
            if !(before is None || at >= before.unwrap()) {
                assert(furthest_location(errs) == before);
                let k = choose|k: int|
                    0 <= k < init.len() && #[trigger] init[k].location() == furthest_location(init);
                assert(errs[k] == init[k]);
                assert forall|j: int|
                    0 <= j < init.len() && (#[trigger] init[j].location()) is None implies exists|
                    i: int,
                |
                    j < i < init.len() && #[trigger] init[i].location() == furthest_location(
                        init,
                    ) by {
                    assert(errs[j] == init[j]);
                    let i = choose|i: int|
                        j < i < errs.len() && #[trigger] errs[i].location() == furthest_location(
                            errs,
                        );
                    assert(init[i] == errs[i]);
                }
                lemma_chosen_is_furthest(init);
            }
        },
        None => {
            let j = errs.len() - 1;
            assert(errs[j].location() is None);
        },
    }
}

/// `parser` fails on `before`.
pub open spec fn fails_on<'a, I, O, E, PType, P>(parser: &P, before: &I) -> bool where
    I: ?Sized + Sequence,
    E: ParserError,
    P: Parser<'a, I, O, E, PType>,
 {
    exists|err: E| #[trigger] parser.outcome(before, Err(err), before)
}

/// Marks the alternation of one parser.
pub struct Alt1<T1> {
    p1: PhantomData<T1>,
}

/// The alternation of one parser.
impl<'a, I: ?Sized + Sequence, O, E: ParserError, P1, T1> Parser<
    'a,
    I,
    O,
    E,
    Alt1<T1>,
> for Alt<(P1,)> where
    P1: Parser<'a, I, O, E, T1>,
 {
    open spec fn ready(&self) -> bool {
        &&& self.0.0.ready()
    }

    open spec fn outcome(&self, before: &I, res: Result<O, E>, after: &I) -> bool {
        match res {
            Ok(out) => self.0.0.outcome(before, Ok(out), after),
            Err(err) => {
                &&& after == before
                &&& exists|errs: Seq<E>|
                    {
                        &&& #[trigger] chosen(errs).err == Some(err)
                        &&& errs.len() == 1
                        &&& self.0.0.outcome(before, Err(errs[0]), before)
                    }
            },
        }
    }

    fn fab(&self, input: &mut &'a I) -> (res: Result<O, E>) {
        let startloc = *input;
        let mut best = Furthest::new();
        let ghost mut seen = Seq::<E>::empty();
        match self.0.0.fab(input) {
            Ok(out) => {
                return Ok(out);
            },
            Err(err) => {
                proof {
                    assert(self.0.0.outcome(startloc, Err(err), startloc));
                    lemma_chosen_push(seen, err);
                    seen = seen.push(err);
                }
                best.note(err);
            },
        }
        *input = startloc;
        let err = best.into_error();
        assert(chosen(seen).err == Some(err));
        Err(err)
    }
}

/// Marks the alternation of two parsers.
pub struct Alt2<T1, T2> {
    p1: PhantomData<T1>,
    p2: PhantomData<T2>,
}

/// The alternation of two parsers.
impl<'a, I: ?Sized + Sequence, O, E: ParserError, P1, T1, P2, T2> Parser<
    'a,
    I,
    O,
    E,
    Alt2<T1, T2>,
> for Alt<(P1, P2)> where
    P1: Parser<'a, I, O, E, T1>,
    P2: Parser<'a, I, O, E, T2>,
 {
    open spec fn ready(&self) -> bool {
        &&& self.0.0.ready()
        &&& self.0.1.ready()
    }

    open spec fn outcome(&self, before: &I, res: Result<O, E>, after: &I) -> bool {
        match res {
            Ok(out) => self.0.0.outcome(before, Ok(out), after)
                    || fails_on::<I, O, E, T1, P1>(&self.0.0, before)
                    && self.0.1.outcome(before, Ok(out), after),
            Err(err) => {
                &&& after == before
                &&& exists|errs: Seq<E>|
                    {
                        &&& #[trigger] chosen(errs).err == Some(err)
                        &&& errs.len() == 2
                        &&& self.0.0.outcome(before, Err(errs[0]), before)
                        &&& self.0.1.outcome(before, Err(errs[1]), before)
                    }
            },
        }
    }

    fn fab(&self, input: &mut &'a I) -> (res: Result<O, E>) {
        let startloc = *input;
        let mut best = Furthest::new();
        let ghost mut seen = Seq::<E>::empty();
        match self.0.0.fab(input) {
            Ok(out) => {
                return Ok(out);
            },
            Err(err) => {
                proof {
                    assert(self.0.0.outcome(startloc, Err(err), startloc));
                    lemma_chosen_push(seen, err);
                    seen = seen.push(err);
                }
                best.note(err);
            },
        }
        *input = startloc;
        match self.0.1.fab(input) {
            Ok(out) => {
                return Ok(out);
            },
            Err(err) => {
                proof {
                    assert(self.0.1.outcome(startloc, Err(err), startloc));
                    lemma_chosen_push(seen, err);
                    seen = seen.push(err);
                }
                best.note(err);
            },
        }
        *input = startloc;
        let err = best.into_error();
        assert(chosen(seen).err == Some(err));
        Err(err)
    }
}

/// Marks the alternation of three parsers.
pub struct Alt3<T1, T2, T3> {
    p1: PhantomData<T1>,
    p2: PhantomData<T2>,
    p3: PhantomData<T3>,
}

/// The alternation of three parsers.
impl<'a, I: ?Sized + Sequence, O, E: ParserError, P1, T1, P2, T2, P3, T3> Parser<
    'a,
    I,
    O,
    E,
    Alt3<T1, T2, T3>,
> for Alt<(P1, P2, P3)> where
    P1: Parser<'a, I, O, E, T1>,
    P2: Parser<'a, I, O, E, T2>,
    P3: Parser<'a, I, O, E, T3>,
 {
    open spec fn ready(&self) -> bool {
        &&& self.0.0.ready()
        &&& self.0.1.ready()
        &&& self.0.2.ready()
    }

    open spec fn outcome(&self, before: &I, res: Result<O, E>, after: &I) -> bool {
        match res {
            Ok(out) => self.0.0.outcome(before, Ok(out), after)
                    || fails_on::<I, O, E, T1, P1>(&self.0.0, before)
                    && (self.0.1.outcome(before, Ok(out), after)
                    || fails_on::<I, O, E, T2, P2>(&self.0.1, before)
                    && self.0.2.outcome(before, Ok(out), after)),
            Err(err) => {
                &&& after == before
                &&& exists|errs: Seq<E>|
                    {
                        &&& #[trigger] chosen(errs).err == Some(err)
                        &&& errs.len() == 3
                        &&& self.0.0.outcome(before, Err(errs[0]), before)
                        &&& self.0.1.outcome(before, Err(errs[1]), before)
                        &&& self.0.2.outcome(before, Err(errs[2]), before)
                    }
            },
        }
    }

    fn fab(&self, input: &mut &'a I) -> (res: Result<O, E>) {
        let startloc = *input;
        let mut best = Furthest::new();
        let ghost mut seen = Seq::<E>::empty();
        match self.0.0.fab(input) {
            Ok(out) => {
                return Ok(out);
            },
            Err(err) => {
                proof {
                    assert(self.0.0.outcome(startloc, Err(err), startloc));
                    lemma_chosen_push(seen, err);
                    seen = seen.push(err);
                }
                best.note(err);
            },
        }
        *input = startloc;
        match self.0.1.fab(input) {
            Ok(out) => {
                return Ok(out);
            },
            Err(err) => {
                proof {
                    assert(self.0.1.outcome(startloc, Err(err), startloc));
                    lemma_chosen_push(seen, err);
                    seen = seen.push(err);
                }
                best.note(err);
            },
        }
        *input = startloc;
        match self.0.2.fab(input) {
            Ok(out) => {
                return Ok(out);
            },
            Err(err) => {
                proof {
                    assert(self.0.2.outcome(startloc, Err(err), startloc));
                    lemma_chosen_push(seen, err);
                    seen = seen.push(err);
                }
                best.note(err);
            },
        }
        *input = startloc;
        let err = best.into_error();
        assert(chosen(seen).err == Some(err));
        Err(err)
    }
}

/// Marks the alternation of four parsers.
pub struct Alt4<T1, T2, T3, T4> {
    p1: PhantomData<T1>,
    p2: PhantomData<T2>,
    p3: PhantomData<T3>,
    p4: PhantomData<T4>,
}

/// The alternation of four parsers.
impl<'a, I: ?Sized + Sequence, O, E: ParserError, P1, T1, P2, T2, P3, T3, P4, T4> Parser<
    'a,
    I,
    O,
    E,
    Alt4<T1, T2, T3, T4>,
> for Alt<(P1, P2, P3, P4)> where
    P1: Parser<'a, I, O, E, T1>,
    P2: Parser<'a, I, O, E, T2>,
    P3: Parser<'a, I, O, E, T3>,
    P4: Parser<'a, I, O, E, T4>,
 {
    open spec fn ready(&self) -> bool {
        &&& self.0.0.ready()
        &&& self.0.1.ready()
        &&& self.0.2.ready()
        &&& self.0.3.ready()
    }

    open spec fn outcome(&self, before: &I, res: Result<O, E>, after: &I) -> bool {
        match res {
            Ok(out) => self.0.0.outcome(before, Ok(out), after)
                    || fails_on::<I, O, E, T1, P1>(&self.0.0, before)
                    && (self.0.1.outcome(before, Ok(out), after)
                    || fails_on::<I, O, E, T2, P2>(&self.0.1, before)
                    && (self.0.2.outcome(before, Ok(out), after)
                    || fails_on::<I, O, E, T3, P3>(&self.0.2, before)
                    && self.0.3.outcome(before, Ok(out), after))),
            Err(err) => {
                &&& after == before
                &&& exists|errs: Seq<E>|
                    {
                        &&& #[trigger] chosen(errs).err == Some(err)
                        &&& errs.len() == 4
                        &&& self.0.0.outcome(before, Err(errs[0]), before)
                        &&& self.0.1.outcome(before, Err(errs[1]), before)
                        &&& self.0.2.outcome(before, Err(errs[2]), before)
                        &&& self.0.3.outcome(before, Err(errs[3]), before)
                    }
            },
        }
    }

    fn fab(&self, input: &mut &'a I) -> (res: Result<O, E>) {
        let startloc = *input;
        let mut best = Furthest::new();
        let ghost mut seen = Seq::<E>::empty();
        match self.0.0.fab(input) {
            Ok(out) => {
                return Ok(out);
            },
            Err(err) => {
                proof {
                    assert(self.0.0.outcome(startloc, Err(err), startloc));
                    lemma_chosen_push(seen, err);
                    seen = seen.push(err);
                }
                best.note(err);
            },
        }
        *input = startloc;
        match self.0.1.fab(input) {
            Ok(out) => {
                return Ok(out);
            },
            Err(err) => {
                proof {
                    assert(self.0.1.outcome(startloc, Err(err), startloc));
                    lemma_chosen_push(seen, err);
                    seen = seen.push(err);
                }
                best.note(err);
            },
        }
        *input = startloc;
        match self.0.2.fab(input) {
            Ok(out) => {
                return Ok(out);
            },
            Err(err) => {
                proof {
                    assert(self.0.2.outcome(startloc, Err(err), startloc));
                    lemma_chosen_push(seen, err);
                    seen = seen.push(err);
                }
                best.note(err);
            },
        }
        *input = startloc;
        match self.0.3.fab(input) {
            Ok(out) => {
                return Ok(out);
            },
            Err(err) => {
                proof {
                    assert(self.0.3.outcome(startloc, Err(err), startloc));
                    lemma_chosen_push(seen, err);
                    seen = seen.push(err);
                }
                best.note(err);
            },
        }
        *input = startloc;
        let err = best.into_error();
        assert(chosen(seen).err == Some(err));
        Err(err)
    }
}

/// Marks the alternation of five parsers.
pub struct Alt5<T1, T2, T3, T4, T5> {
    p1: PhantomData<T1>,
    p2: PhantomData<T2>,
    p3: PhantomData<T3>,
    p4: PhantomData<T4>,
    p5: PhantomData<T5>,
}

/// The alternation of five parsers.
impl<'a, I: ?Sized + Sequence, O, E: ParserError, P1, T1, P2, T2, P3, T3, P4, T4, P5, T5> Parser<
    'a,
    I,
    O,
    E,
    Alt5<T1, T2, T3, T4, T5>,
> for Alt<(P1, P2, P3, P4, P5)> where
    P1: Parser<'a, I, O, E, T1>,
    P2: Parser<'a, I, O, E, T2>,
    P3: Parser<'a, I, O, E, T3>,
    P4: Parser<'a, I, O, E, T4>,
    P5: Parser<'a, I, O, E, T5>,
 {
    open spec fn ready(&self) -> bool {
        &&& self.0.0.ready()
        &&& self.0.1.ready()
        &&& self.0.2.ready()
        &&& self.0.3.ready()
        &&& self.0.4.ready()
    }

    open spec fn outcome(&self, before: &I, res: Result<O, E>, after: &I) -> bool {
        match res {
            Ok(out) => self.0.0.outcome(before, Ok(out), after)
                    || fails_on::<I, O, E, T1, P1>(&self.0.0, before)
                    && (self.0.1.outcome(before, Ok(out), after)
                    || fails_on::<I, O, E, T2, P2>(&self.0.1, before)
                    && (self.0.2.outcome(before, Ok(out), after)
                    || fails_on::<I, O, E, T3, P3>(&self.0.2, before)
                    && (self.0.3.outcome(before, Ok(out), after)
                    || fails_on::<I, O, E, T4, P4>(&self.0.3, before)
                    && self.0.4.outcome(before, Ok(out), after)))),
            Err(err) => {
                &&& after == before
                &&& exists|errs: Seq<E>|
                    {
                        &&& #[trigger] chosen(errs).err == Some(err)
                        &&& errs.len() == 5
                        &&& self.0.0.outcome(before, Err(errs[0]), before)
                        &&& self.0.1.outcome(before, Err(errs[1]), before)
                        &&& self.0.2.outcome(before, Err(errs[2]), before)
                        &&& self.0.3.outcome(before, Err(errs[3]), before)
                        &&& self.0.4.outcome(before, Err(errs[4]), before)
                    }
            },
        }
    }

    fn fab(&self, input: &mut &'a I) -> (res: Result<O, E>) {
        let startloc = *input;
        let mut best = Furthest::new();
        let ghost mut seen = Seq::<E>::empty();
        match self.0.0.fab(input) {
            Ok(out) => {
                return Ok(out);
            },
            Err(err) => {
                proof {
                    assert(self.0.0.outcome(startloc, Err(err), startloc));
                    lemma_chosen_push(seen, err);
                    seen = seen.push(err);
                }
                best.note(err);
            },
        }
        *input = startloc;
        match self.0.1.fab(input) {
            Ok(out) => {
                return Ok(out);
            },
            Err(err) => {
                proof {
                    assert(self.0.1.outcome(startloc, Err(err), startloc));
                    lemma_chosen_push(seen, err);
                    seen = seen.push(err);
                }
                best.note(err);
            },
        }
        *input = startloc;
        match self.0.2.fab(input) {
            Ok(out) => {
                return Ok(out);
            },
            Err(err) => {
                proof {
                    assert(self.0.2.outcome(startloc, Err(err), startloc));
                    lemma_chosen_push(seen, err);
                    seen = seen.push(err);
                }
                best.note(err);
            },
        }
        *input = startloc;
        match self.0.3.fab(input) {
            Ok(out) => {
                return Ok(out);
            },
            Err(err) => {
                proof {
                    assert(self.0.3.outcome(startloc, Err(err), startloc));
                    lemma_chosen_push(seen, err);
                    seen = seen.push(err);
                }
                best.note(err);
            },
        }
        *input = startloc;
        match self.0.4.fab(input) {
            Ok(out) => {
                return Ok(out);
            },
            Err(err) => {
                proof {
                    assert(self.0.4.outcome(startloc, Err(err), startloc));
                    lemma_chosen_push(seen, err);
                    seen = seen.push(err);
                }
                best.note(err);
            },
        }
        *input = startloc;
        let err = best.into_error();
        assert(chosen(seen).err == Some(err));
        Err(err)
    }
}

/// Marks the alternation of six parsers.
pub struct Alt6<T1, T2, T3, T4, T5, T6> {
    p1: PhantomData<T1>,
    p2: PhantomData<T2>,
    p3: PhantomData<T3>,
    p4: PhantomData<T4>,
    p5: PhantomData<T5>,
    p6: PhantomData<T6>,
}

/// The alternation of six parsers.
impl<'a, I: ?Sized + Sequence, O, E: ParserError, P1, T1, P2, T2, P3, T3, P4, T4, P5, T5, P6,
    T6> Parser<
    'a,
    I,
    O,
    E,
    Alt6<T1, T2, T3, T4, T5, T6>,
> for Alt<(P1, P2, P3, P4, P5, P6)> where
    P1: Parser<'a, I, O, E, T1>,
    P2: Parser<'a, I, O, E, T2>,
    P3: Parser<'a, I, O, E, T3>,
    P4: Parser<'a, I, O, E, T4>,
    P5: Parser<'a, I, O, E, T5>,
    P6: Parser<'a, I, O, E, T6>,
 {
    open spec fn ready(&self) -> bool {
        &&& self.0.0.ready()
        &&& self.0.1.ready()
        &&& self.0.2.ready()
        &&& self.0.3.ready()
        &&& self.0.4.ready()
        &&& self.0.5.ready()
    }

    open spec fn outcome(&self, before: &I, res: Result<O, E>, after: &I) -> bool {
        match res {
            Ok(out) => self.0.0.outcome(before, Ok(out), after)
                    || fails_on::<I, O, E, T1, P1>(&self.0.0, before)
                    && (self.0.1.outcome(before, Ok(out), after)
                    || fails_on::<I, O, E, T2, P2>(&self.0.1, before)
                    && (self.0.2.outcome(before, Ok(out), after)
                    || fails_on::<I, O, E, T3, P3>(&self.0.2, before)
                    && (self.0.3.outcome(before, Ok(out), after)
                    || fails_on::<I, O, E, T4, P4>(&self.0.3, before)
                    && (self.0.4.outcome(before, Ok(out), after)
                    || fails_on::<I, O, E, T5, P5>(&self.0.4, before)
                    && self.0.5.outcome(before, Ok(out), after))))),
            Err(err) => {
                &&& after == before
                &&& exists|errs: Seq<E>|
                    {
                        &&& #[trigger] chosen(errs).err == Some(err)
                        &&& errs.len() == 6
                        &&& self.0.0.outcome(before, Err(errs[0]), before)
                        &&& self.0.1.outcome(before, Err(errs[1]), before)
                        &&& self.0.2.outcome(before, Err(errs[2]), before)
                        &&& self.0.3.outcome(before, Err(errs[3]), before)
                        &&& self.0.4.outcome(before, Err(errs[4]), before)
                        &&& self.0.5.outcome(before, Err(errs[5]), before)
                    }
            },
        }
    }

    fn fab(&self, input: &mut &'a I) -> (res: Result<O, E>) {
        let startloc = *input;
        let mut best = Furthest::new();
        let ghost mut seen = Seq::<E>::empty();
        match self.0.0.fab(input) {
            Ok(out) => {
                return Ok(out);
            },
            Err(err) => {
                proof {
                    assert(self.0.0.outcome(startloc, Err(err), startloc));
                    lemma_chosen_push(seen, err);
                    seen = seen.push(err);
                }
                best.note(err);
            },
        }
        *input = startloc;
        match self.0.1.fab(input) {
            Ok(out) => {
                return Ok(out);
            },
            Err(err) => {
                proof {
                    assert(self.0.1.outcome(startloc, Err(err), startloc));
                    lemma_chosen_push(seen, err);
                    seen = seen.push(err);
                }
                best.note(err);
            },
        }
        *input = startloc;
        match self.0.2.fab(input) {
            Ok(out) => {
                return Ok(out);
            },
            Err(err) => {
                proof {
                    assert(self.0.2.outcome(startloc, Err(err), startloc));
                    lemma_chosen_push(seen, err);
                    seen = seen.push(err);
                }
                best.note(err);
            },
        }
        *input = startloc;
        match self.0.3.fab(input) {
            Ok(out) => {
                return Ok(out);
            },
            Err(err) => {
                proof {
                    assert(self.0.3.outcome(startloc, Err(err), startloc));
                    lemma_chosen_push(seen, err);
                    seen = seen.push(err);
                }
                best.note(err);
            },
        }
        *input = startloc;
        match self.0.4.fab(input) {
            Ok(out) => {
                return Ok(out);
            },
            Err(err) => {
                proof {
                    assert(self.0.4.outcome(startloc, Err(err), startloc));
                    lemma_chosen_push(seen, err);
                    seen = seen.push(err);
                }
                best.note(err);
            },
        }
        *input = startloc;
        match self.0.5.fab(input) {
            Ok(out) => {
                return Ok(out);
            },
            Err(err) => {
                proof {
                    assert(self.0.5.outcome(startloc, Err(err), startloc));
                    lemma_chosen_push(seen, err);
                    seen = seen.push(err);
                }
                best.note(err);
            },
        }
        *input = startloc;
        let err = best.into_error();
        assert(chosen(seen).err == Some(err));
        Err(err)
    }
}

/// Marks the alternation of seven parsers.
pub struct Alt7<T1, T2, T3, T4, T5, T6, T7> {
    p1: PhantomData<T1>,
    p2: PhantomData<T2>,
    p3: PhantomData<T3>,
    p4: PhantomData<T4>,
    p5: PhantomData<T5>,
    p6: PhantomData<T6>,
    p7: PhantomData<T7>,
}

/// The alternation of seven parsers.
impl<'a, I: ?Sized + Sequence, O, E: ParserError, P1, T1, P2, T2, P3, T3, P4, T4, P5, T5, P6, T6,
    P7, T7> Parser<
    'a,
    I,
    O,
    E,
    Alt7<T1, T2, T3, T4, T5, T6, T7>,
> for Alt<(P1, P2, P3, P4, P5, P6, P7)> where
    P1: Parser<'a, I, O, E, T1>,
    P2: Parser<'a, I, O, E, T2>,
    P3: Parser<'a, I, O, E, T3>,
    P4: Parser<'a, I, O, E, T4>,
    P5: Parser<'a, I, O, E, T5>,
    P6: Parser<'a, I, O, E, T6>,
    P7: Parser<'a, I, O, E, T7>,
 {
    open spec fn ready(&self) -> bool {
        &&& self.0.0.ready()
        &&& self.0.1.ready()
        &&& self.0.2.ready()
        &&& self.0.3.ready()
        &&& self.0.4.ready()
        &&& self.0.5.ready()
        &&& self.0.6.ready()
    }

    open spec fn outcome(&self, before: &I, res: Result<O, E>, after: &I) -> bool {
        match res {
            Ok(out) => self.0.0.outcome(before, Ok(out), after)
                    || fails_on::<I, O, E, T1, P1>(&self.0.0, before)
                    && (self.0.1.outcome(before, Ok(out), after)
                    || fails_on::<I, O, E, T2, P2>(&self.0.1, before)
                    && (self.0.2.outcome(before, Ok(out), after)
                    || fails_on::<I, O, E, T3, P3>(&self.0.2, before)
                    && (self.0.3.outcome(before, Ok(out), after)
                    || fails_on::<I, O, E, T4, P4>(&self.0.3, before)
                    && (self.0.4.outcome(before, Ok(out), after)
                    || fails_on::<I, O, E, T5, P5>(&self.0.4, before)
                    && (self.0.5.outcome(before, Ok(out), after)
                    || fails_on::<I, O, E, T6, P6>(&self.0.5, before)
                    && self.0.6.outcome(before, Ok(out), after)))))),
            Err(err) => {
                &&& after == before
                &&& exists|errs: Seq<E>|
                    {
                        &&& #[trigger] chosen(errs).err == Some(err)
                        &&& errs.len() == 7
                        &&& self.0.0.outcome(before, Err(errs[0]), before)
                        &&& self.0.1.outcome(before, Err(errs[1]), before)
                        &&& self.0.2.outcome(before, Err(errs[2]), before)
                        &&& self.0.3.outcome(before, Err(errs[3]), before)
                        &&& self.0.4.outcome(before, Err(errs[4]), before)
                        &&& self.0.5.outcome(before, Err(errs[5]), before)
                        &&& self.0.6.outcome(before, Err(errs[6]), before)
                    }
            },
        }
    }

    fn fab(&self, input: &mut &'a I) -> (res: Result<O, E>) {
        let startloc = *input;
        let mut best = Furthest::new();
        let ghost mut seen = Seq::<E>::empty();
        match self.0.0.fab(input) {
            Ok(out) => {
                return Ok(out);
            },
            Err(err) => {
                proof {
                    assert(self.0.0.outcome(startloc, Err(err), startloc));
                    lemma_chosen_push(seen, err);
                    seen = seen.push(err);
                }
                best.note(err);
            },
        }
        *input = startloc;
        match self.0.1.fab(input) {
            Ok(out) => {
                return Ok(out);
            },
            Err(err) => {
                proof {
                    assert(self.0.1.outcome(startloc, Err(err), startloc));
                    lemma_chosen_push(seen, err);
                    seen = seen.push(err);
                }
                best.note(err);
            },
        }
        *input = startloc;
        match self.0.2.fab(input) {
            Ok(out) => {
                return Ok(out);
            },
            Err(err) => {
                proof {
                    assert(self.0.2.outcome(startloc, Err(err), startloc));
                    lemma_chosen_push(seen, err);
                    seen = seen.push(err);
                }
                best.note(err);
            },
        }
        *input = startloc;
        match self.0.3.fab(input) {
            Ok(out) => {
                return Ok(out);
            },
            Err(err) => {
                proof {
                    assert(self.0.3.outcome(startloc, Err(err), startloc));
                    lemma_chosen_push(seen, err);
                    seen = seen.push(err);
                }
                best.note(err);
            },
        }
        *input = startloc;
        match self.0.4.fab(input) {
            Ok(out) => {
                return Ok(out);
            },
            Err(err) => {
                proof {
                    assert(self.0.4.outcome(startloc, Err(err), startloc));
                    lemma_chosen_push(seen, err);
                    seen = seen.push(err);
                }
                best.note(err);
            },
        }
        *input = startloc;
        match self.0.5.fab(input) {
            Ok(out) => {
                return Ok(out);
            },
            Err(err) => {
                proof {
                    assert(self.0.5.outcome(startloc, Err(err), startloc));
                    lemma_chosen_push(seen, err);
                    seen = seen.push(err);
                }
                best.note(err);
            },
        }
        *input = startloc;
        match self.0.6.fab(input) {
            Ok(out) => {
                return Ok(out);
            },
            Err(err) => {
                proof {
                    assert(self.0.6.outcome(startloc, Err(err), startloc));
                    lemma_chosen_push(seen, err);
                    seen = seen.push(err);
                }
                best.note(err);
            },
        }
        *input = startloc;
        let err = best.into_error();
        assert(chosen(seen).err == Some(err));
        Err(err)
    }
}

/// Marks the alternation of eight parsers.
pub struct Alt8<T1, T2, T3, T4, T5, T6, T7, T8> {
    p1: PhantomData<T1>,
    p2: PhantomData<T2>,
    p3: PhantomData<T3>,
    p4: PhantomData<T4>,
    p5: PhantomData<T5>,
    p6: PhantomData<T6>,
    p7: PhantomData<T7>,
    p8: PhantomData<T8>,
}

/// The alternation of eight parsers.
impl<'a, I: ?Sized + Sequence, O, E: ParserError, P1, T1, P2, T2, P3, T3, P4, T4, P5, T5, P6, T6,
    P7, T7, P8, T8> Parser<
    'a,
    I,
    O,
    E,
    Alt8<T1, T2, T3, T4, T5, T6, T7, T8>,
> for Alt<(P1, P2, P3, P4, P5, P6, P7, P8)> where
    P1: Parser<'a, I, O, E, T1>,
    P2: Parser<'a, I, O, E, T2>,
    P3: Parser<'a, I, O, E, T3>,
    P4: Parser<'a, I, O, E, T4>,
    P5: Parser<'a, I, O, E, T5>,
    P6: Parser<'a, I, O, E, T6>,
    P7: Parser<'a, I, O, E, T7>,
    P8: Parser<'a, I, O, E, T8>,
 {
    open spec fn ready(&self) -> bool {
        &&& self.0.0.ready()
        &&& self.0.1.ready()
        &&& self.0.2.ready()
        &&& self.0.3.ready()
        &&& self.0.4.ready()
        &&& self.0.5.ready()
        &&& self.0.6.ready()
        &&& self.0.7.ready()
    }

    open spec fn outcome(&self, before: &I, res: Result<O, E>, after: &I) -> bool {
        match res {
            Ok(out) => self.0.0.outcome(before, Ok(out), after)
                    || fails_on::<I, O, E, T1, P1>(&self.0.0, before)
                    && (self.0.1.outcome(before, Ok(out), after)
                    || fails_on::<I, O, E, T2, P2>(&self.0.1, before)
                    && (self.0.2.outcome(before, Ok(out), after)
                    || fails_on::<I, O, E, T3, P3>(&self.0.2, before)
                    && (self.0.3.outcome(before, Ok(out), after)
                    || fails_on::<I, O, E, T4, P4>(&self.0.3, before)
                    && (self.0.4.outcome(before, Ok(out), after)
                    || fails_on::<I, O, E, T5, P5>(&self.0.4, before)
                    && (self.0.5.outcome(before, Ok(out), after)
                    || fails_on::<I, O, E, T6, P6>(&self.0.5, before)
                    && (self.0.6.outcome(before, Ok(out), after)
                    || fails_on::<I, O, E, T7, P7>(&self.0.6, before)
                    && self.0.7.outcome(before, Ok(out), after))))))),
            Err(err) => {
                &&& after == before
                &&& exists|errs: Seq<E>|
                    {
                        &&& #[trigger] chosen(errs).err == Some(err)
                        &&& errs.len() == 8
                        &&& self.0.0.outcome(before, Err(errs[0]), before)
                        &&& self.0.1.outcome(before, Err(errs[1]), before)
                        &&& self.0.2.outcome(before, Err(errs[2]), before)
                        &&& self.0.3.outcome(before, Err(errs[3]), before)
                        &&& self.0.4.outcome(before, Err(errs[4]), before)
                        &&& self.0.5.outcome(before, Err(errs[5]), before)
                        &&& self.0.6.outcome(before, Err(errs[6]), before)
                        &&& self.0.7.outcome(before, Err(errs[7]), before)
                    }
            },
        }
    }

    fn fab(&self, input: &mut &'a I) -> (res: Result<O, E>) {
        let startloc = *input;
        let mut best = Furthest::new();
        let ghost mut seen = Seq::<E>::empty();
        match self.0.0.fab(input) {
            Ok(out) => {
                return Ok(out);
            },
            Err(err) => {
                proof {
                    assert(self.0.0.outcome(startloc, Err(err), startloc));
                    lemma_chosen_push(seen, err);
                    seen = seen.push(err);
                }
                best.note(err);
            },
        }
        *input = startloc;
        match self.0.1.fab(input) {
            Ok(out) => {
                return Ok(out);
            },
            Err(err) => {
                proof {
                    assert(self.0.1.outcome(startloc, Err(err), startloc));
                    lemma_chosen_push(seen, err);
                    seen = seen.push(err);
                }
                best.note(err);
            },
        }
        *input = startloc;
        match self.0.2.fab(input) {
            Ok(out) => {
                return Ok(out);
            },
            Err(err) => {
                proof {
                    assert(self.0.2.outcome(startloc, Err(err), startloc));
                    lemma_chosen_push(seen, err);
                    seen = seen.push(err);
                }
                best.note(err);
            },
        }
        *input = startloc;
        match self.0.3.fab(input) {
            Ok(out) => {
                return Ok(out);
            },
            Err(err) => {
                proof {
                    assert(self.0.3.outcome(startloc, Err(err), startloc));
                    lemma_chosen_push(seen, err);
                    seen = seen.push(err);
                }
                best.note(err);
            },
        }
        *input = startloc;
        match self.0.4.fab(input) {
            Ok(out) => {
                return Ok(out);
            },
            Err(err) => {
                proof {
                    assert(self.0.4.outcome(startloc, Err(err), startloc));
                    lemma_chosen_push(seen, err);
                    seen = seen.push(err);
                }
                best.note(err);
            },
        }
        *input = startloc;
        match self.0.5.fab(input) {
            Ok(out) => {
                return Ok(out);
            },
            Err(err) => {
                proof {
                    assert(self.0.5.outcome(startloc, Err(err), startloc));
                    lemma_chosen_push(seen, err);
                    seen = seen.push(err);
                }
                best.note(err);
            },
        }
        *input = startloc;
        match self.0.6.fab(input) {
            Ok(out) => {
                return Ok(out);
            },
            Err(err) => {
                proof {
                    assert(self.0.6.outcome(startloc, Err(err), startloc));
                    lemma_chosen_push(seen, err);
                    seen = seen.push(err);
                }
                best.note(err);
            },
        }
        *input = startloc;
        match self.0.7.fab(input) {
            Ok(out) => {
                return Ok(out);
            },
            Err(err) => {
                proof {
                    assert(self.0.7.outcome(startloc, Err(err), startloc));
                    lemma_chosen_push(seen, err);
                    seen = seen.push(err);
                }
                best.note(err);
            },
        }
        *input = startloc;
        let err = best.into_error();
        assert(chosen(seen).err == Some(err));
        Err(err)
    }
}

/// Marks the alternation of nine parsers.
pub struct Alt9<T1, T2, T3, T4, T5, T6, T7, T8, T9> {
    p1: PhantomData<T1>,
    p2: PhantomData<T2>,
    p3: PhantomData<T3>,
    p4: PhantomData<T4>,
    p5: PhantomData<T5>,
    p6: PhantomData<T6>,
    p7: PhantomData<T7>,
    p8: PhantomData<T8>,
    p9: PhantomData<T9>,
}

/// The alternation of nine parsers.
impl<'a, I: ?Sized + Sequence, O, E: ParserError, P1, T1, P2, T2, P3, T3, P4, T4, P5, T5, P6, T6,
    P7, T7, P8, T8, P9, T9> Parser<
    'a,
    I,
    O,
    E,
    Alt9<T1, T2, T3, T4, T5, T6, T7, T8, T9>,
> for Alt<(P1, P2, P3, P4, P5, P6, P7, P8, P9)> where
    P1: Parser<'a, I, O, E, T1>,
    P2: Parser<'a, I, O, E, T2>,
    P3: Parser<'a, I, O, E, T3>,
    P4: Parser<'a, I, O, E, T4>,
    P5: Parser<'a, I, O, E, T5>,
    P6: Parser<'a, I, O, E, T6>,
    P7: Parser<'a, I, O, E, T7>,
    P8: Parser<'a, I, O, E, T8>,
    P9: Parser<'a, I, O, E, T9>,
 {
    open spec fn ready(&self) -> bool {
        &&& self.0.0.ready()
        &&& self.0.1.ready()
        &&& self.0.2.ready()
        &&& self.0.3.ready()
        &&& self.0.4.ready()
        &&& self.0.5.ready()
        &&& self.0.6.ready()
        &&& self.0.7.ready()
        &&& self.0.8.ready()
    }

    open spec fn outcome(&self, before: &I, res: Result<O, E>, after: &I) -> bool {
        match res {
            Ok(out) => self.0.0.outcome(before, Ok(out), after)
                    || fails_on::<I, O, E, T1, P1>(&self.0.0, before)
                    && (self.0.1.outcome(before, Ok(out), after)
                    || fails_on::<I, O, E, T2, P2>(&self.0.1, before)
                    && (self.0.2.outcome(before, Ok(out), after)
                    || fails_on::<I, O, E, T3, P3>(&self.0.2, before)
                    && (self.0.3.outcome(before, Ok(out), after)
                    || fails_on::<I, O, E, T4, P4>(&self.0.3, before)
                    && (self.0.4.outcome(before, Ok(out), after)
                    || fails_on::<I, O, E, T5, P5>(&self.0.4, before)
                    && (self.0.5.outcome(before, Ok(out), after)
                    || fails_on::<I, O, E, T6, P6>(&self.0.5, before)
                    && (self.0.6.outcome(before, Ok(out), after)
                    || fails_on::<I, O, E, T7, P7>(&self.0.6, before)
                    && (self.0.7.outcome(before, Ok(out), after)
                    || fails_on::<I, O, E, T8, P8>(&self.0.7, before)
                    && self.0.8.outcome(before, Ok(out), after)))))))),
            Err(err) => {
                &&& after == before
                &&& exists|errs: Seq<E>|
                    {
                        &&& #[trigger] chosen(errs).err == Some(err)
                        &&& errs.len() == 9
                        &&& self.0.0.outcome(before, Err(errs[0]), before)
                        &&& self.0.1.outcome(before, Err(errs[1]), before)
                        &&& self.0.2.outcome(before, Err(errs[2]), before)
                        &&& self.0.3.outcome(before, Err(errs[3]), before)
                        &&& self.0.4.outcome(before, Err(errs[4]), before)
                        &&& self.0.5.outcome(before, Err(errs[5]), before)
                        &&& self.0.6.outcome(before, Err(errs[6]), before)
                        &&& self.0.7.outcome(before, Err(errs[7]), before)
                        &&& self.0.8.outcome(before, Err(errs[8]), before)
                    }
            },
        }
    }

    fn fab(&self, input: &mut &'a I) -> (res: Result<O, E>) {
        let startloc = *input;
        let mut best = Furthest::new();
        let ghost mut seen = Seq::<E>::empty();
        match self.0.0.fab(input) {
            Ok(out) => {
                return Ok(out);
            },
            Err(err) => {
                proof {
                    assert(self.0.0.outcome(startloc, Err(err), startloc));
                    lemma_chosen_push(seen, err);
                    seen = seen.push(err);
                }
                best.note(err);
            },
        }
        *input = startloc;
        match self.0.1.fab(input) {
            Ok(out) => {
                return Ok(out);
            },
            Err(err) => {
                proof {
                    assert(self.0.1.outcome(startloc, Err(err), startloc));
                    lemma_chosen_push(seen, err);
                    seen = seen.push(err);
                }
                best.note(err);
            },
        }
        *input = startloc;
        match self.0.2.fab(input) {
            Ok(out) => {
                return Ok(out);
            },
            Err(err) => {
                proof {
                    assert(self.0.2.outcome(startloc, Err(err), startloc));
                    lemma_chosen_push(seen, err);
                    seen = seen.push(err);
                }
                best.note(err);
            },
        }
        *input = startloc;
        match self.0.3.fab(input) {
            Ok(out) => {
                return Ok(out);
            },
            Err(err) => {
                proof {
                    assert(self.0.3.outcome(startloc, Err(err), startloc));
                    lemma_chosen_push(seen, err);
                    seen = seen.push(err);
                }
                best.note(err);
            },
        }
        *input = startloc;
        match self.0.4.fab(input) {
            Ok(out) => {
                return Ok(out);
            },
            Err(err) => {
                proof {
                    assert(self.0.4.outcome(startloc, Err(err), startloc));
                    lemma_chosen_push(seen, err);
                    seen = seen.push(err);
                }
                best.note(err);
            },
        }
        *input = startloc;
        match self.0.5.fab(input) {
            Ok(out) => {
                return Ok(out);
            },
            Err(err) => {
                proof {
                    assert(self.0.5.outcome(startloc, Err(err), startloc));
                    lemma_chosen_push(seen, err);
                    seen = seen.push(err);
                }
                best.note(err);
            },
        }
        *input = startloc;
        match self.0.6.fab(input) {
            Ok(out) => {
                return Ok(out);
            },
            Err(err) => {
                proof {
                    assert(self.0.6.outcome(startloc, Err(err), startloc));
                    lemma_chosen_push(seen, err);
                    seen = seen.push(err);
                }
                best.note(err);
            },
        }
        *input = startloc;
        match self.0.7.fab(input) {
            Ok(out) => {
                return Ok(out);
            },
            Err(err) => {
                proof {
                    assert(self.0.7.outcome(startloc, Err(err), startloc));
                    lemma_chosen_push(seen, err);
                    seen = seen.push(err);
                }
                best.note(err);
            },
        }
        *input = startloc;
        match self.0.8.fab(input) {
            Ok(out) => {
                return Ok(out);
            },
            Err(err) => {
                proof {
                    assert(self.0.8.outcome(startloc, Err(err), startloc));
                    lemma_chosen_push(seen, err);
                    seen = seen.push(err);
                }
                best.note(err);
            },
        }
        *input = startloc;
        let err = best.into_error();
        assert(chosen(seen).err == Some(err));
        Err(err)
    }
}

/// Marks the alternation of ten parsers.
pub struct Alt10<T1, T2, T3, T4, T5, T6, T7, T8, T9, T10> {
    p1: PhantomData<T1>,
    p2: PhantomData<T2>,
    p3: PhantomData<T3>,
    p4: PhantomData<T4>,
    p5: PhantomData<T5>,
    p6: PhantomData<T6>,
    p7: PhantomData<T7>,
    p8: PhantomData<T8>,
    p9: PhantomData<T9>,
    p10: PhantomData<T10>,
}

/// The alternation of ten parsers.
impl<'a, I: ?Sized + Sequence, O, E: ParserError, P1, T1, P2, T2, P3, T3, P4, T4, P5, T5, P6, T6,
    P7, T7, P8, T8, P9, T9, P10, T10> Parser<
    'a,
    I,
    O,
    E,
    Alt10<T1, T2, T3, T4, T5, T6, T7, T8, T9, T10>,
> for Alt<(P1, P2, P3, P4, P5, P6, P7, P8, P9, P10)> where
    P1: Parser<'a, I, O, E, T1>,
    P2: Parser<'a, I, O, E, T2>,
    P3: Parser<'a, I, O, E, T3>,
    P4: Parser<'a, I, O, E, T4>,
    P5: Parser<'a, I, O, E, T5>,
    P6: Parser<'a, I, O, E, T6>,
    P7: Parser<'a, I, O, E, T7>,
    P8: Parser<'a, I, O, E, T8>,
    P9: Parser<'a, I, O, E, T9>,
    P10: Parser<'a, I, O, E, T10>,
 {
    open spec fn ready(&self) -> bool {
        &&& self.0.0.ready()
        &&& self.0.1.ready()
        &&& self.0.2.ready()
        &&& self.0.3.ready()
        &&& self.0.4.ready()
        &&& self.0.5.ready()
        &&& self.0.6.ready()
        &&& self.0.7.ready()
        &&& self.0.8.ready()
        &&& self.0.9.ready()
    }

    open spec fn outcome(&self, before: &I, res: Result<O, E>, after: &I) -> bool {
        match res {
            Ok(out) => self.0.0.outcome(before, Ok(out), after)
                    || fails_on::<I, O, E, T1, P1>(&self.0.0, before)
                    && (self.0.1.outcome(before, Ok(out), after)
                    || fails_on::<I, O, E, T2, P2>(&self.0.1, before)
                    && (self.0.2.outcome(before, Ok(out), after)
                    || fails_on::<I, O, E, T3, P3>(&self.0.2, before)
                    && (self.0.3.outcome(before, Ok(out), after)
                    || fails_on::<I, O, E, T4, P4>(&self.0.3, before)
                    && (self.0.4.outcome(before, Ok(out), after)
                    || fails_on::<I, O, E, T5, P5>(&self.0.4, before)
                    && (self.0.5.outcome(before, Ok(out), after)
                    || fails_on::<I, O, E, T6, P6>(&self.0.5, before)
                    && (self.0.6.outcome(before, Ok(out), after)
                    || fails_on::<I, O, E, T7, P7>(&self.0.6, before)
                    && (self.0.7.outcome(before, Ok(out), after)
                    || fails_on::<I, O, E, T8, P8>(&self.0.7, before)
                    && (self.0.8.outcome(before, Ok(out), after)
                    || fails_on::<I, O, E, T9, P9>(&self.0.8, before)
                    && self.0.9.outcome(before, Ok(out), after))))))))),
            Err(err) => {
                &&& after == before
                &&& exists|errs: Seq<E>|
                    {
                        &&& #[trigger] chosen(errs).err == Some(err)
                        &&& errs.len() == 10
                        &&& self.0.0.outcome(before, Err(errs[0]), before)
                        &&& self.0.1.outcome(before, Err(errs[1]), before)
                        &&& self.0.2.outcome(before, Err(errs[2]), before)
                        &&& self.0.3.outcome(before, Err(errs[3]), before)
                        &&& self.0.4.outcome(before, Err(errs[4]), before)
                        &&& self.0.5.outcome(before, Err(errs[5]), before)
                        &&& self.0.6.outcome(before, Err(errs[6]), before)
                        &&& self.0.7.outcome(before, Err(errs[7]), before)
                        &&& self.0.8.outcome(before, Err(errs[8]), before)
                        &&& self.0.9.outcome(before, Err(errs[9]), before)
                    }
            },
        }
    }

    fn fab(&self, input: &mut &'a I) -> (res: Result<O, E>) {
        let startloc = *input;
        let mut best = Furthest::new();
        let ghost mut seen = Seq::<E>::empty();
        match self.0.0.fab(input) {
            Ok(out) => {
                return Ok(out);
            },
            Err(err) => {
                proof {
                    assert(self.0.0.outcome(startloc, Err(err), startloc));
                    lemma_chosen_push(seen, err);
                    seen = seen.push(err);
                }
                best.note(err);
            },
        }
        *input = startloc;
        match self.0.1.fab(input) {
            Ok(out) => {
                return Ok(out);
            },
            Err(err) => {
                proof {
                    assert(self.0.1.outcome(startloc, Err(err), startloc));
                    lemma_chosen_push(seen, err);
                    seen = seen.push(err);
                }
                best.note(err);
            },
        }
        *input = startloc;
        match self.0.2.fab(input) {
            Ok(out) => {
                return Ok(out);
            },
            Err(err) => {
                proof {
                    assert(self.0.2.outcome(startloc, Err(err), startloc));
                    lemma_chosen_push(seen, err);
                    seen = seen.push(err);
                }
                best.note(err);
            },
        }
        *input = startloc;
        match self.0.3.fab(input) {
            Ok(out) => {
                return Ok(out);
            },
            Err(err) => {
                proof {
                    assert(self.0.3.outcome(startloc, Err(err), startloc));
                    lemma_chosen_push(seen, err);
                    seen = seen.push(err);
                }
                best.note(err);
            },
        }
        *input = startloc;
        match self.0.4.fab(input) {
            Ok(out) => {
                return Ok(out);
            },
            Err(err) => {
                proof {
                    assert(self.0.4.outcome(startloc, Err(err), startloc));
                    lemma_chosen_push(seen, err);
                    seen = seen.push(err);
                }
                best.note(err);
            },
        }
        *input = startloc;
        match self.0.5.fab(input) {
            Ok(out) => {
                return Ok(out);
            },
            Err(err) => {
                proof {
                    assert(self.0.5.outcome(startloc, Err(err), startloc));
                    lemma_chosen_push(seen, err);
                    seen = seen.push(err);
                }
                best.note(err);
            },
        }
        *input = startloc;
        match self.0.6.fab(input) {
            Ok(out) => {
                return Ok(out);
            },
            Err(err) => {
                proof {
                    assert(self.0.6.outcome(startloc, Err(err), startloc));
                    lemma_chosen_push(seen, err);
                    seen = seen.push(err);
                }
                best.note(err);
            },
        }
        *input = startloc;
        match self.0.7.fab(input) {
            Ok(out) => {
                return Ok(out);
            },
            Err(err) => {
                proof {
                    assert(self.0.7.outcome(startloc, Err(err), startloc));
                    lemma_chosen_push(seen, err);
                    seen = seen.push(err);
                }
                best.note(err);
            },
        }
        *input = startloc;
        match self.0.8.fab(input) {
            Ok(out) => {
                return Ok(out);
            },
            Err(err) => {
                proof {
                    assert(self.0.8.outcome(startloc, Err(err), startloc));
                    lemma_chosen_push(seen, err);
                    seen = seen.push(err);
                }
                best.note(err);
            },
        }
        *input = startloc;
        match self.0.9.fab(input) {
            Ok(out) => {
                return Ok(out);
            },
            Err(err) => {
                proof {
                    assert(self.0.9.outcome(startloc, Err(err), startloc));
                    lemma_chosen_push(seen, err);
                    seen = seen.push(err);
                }
                best.note(err);
            },
        }
        *input = startloc;
        let err = best.into_error();
        assert(chosen(seen).err == Some(err));
        Err(err)
    }
}

/// Marks the alternation of eleven parsers.
pub struct Alt11<T1, T2, T3, T4, T5, T6, T7, T8, T9, T10, T11> {
    p1: PhantomData<T1>,
    p2: PhantomData<T2>,
    p3: PhantomData<T3>,
    p4: PhantomData<T4>,
    p5: PhantomData<T5>,
    p6: PhantomData<T6>,
    p7: PhantomData<T7>,
    p8: PhantomData<T8>,
    p9: PhantomData<T9>,
    p10: PhantomData<T10>,
    p11: PhantomData<T11>,
}

/// The alternation of eleven parsers.
impl<'a, I: ?Sized + Sequence, O, E: ParserError, P1, T1, P2, T2, P3, T3, P4, T4, P5, T5, P6, T6,
    P7, T7, P8, T8, P9, T9, P10, T10, P11, T11> Parser<
    'a,
    I,
    O,
    E,
    Alt11<T1, T2, T3, T4, T5, T6, T7, T8, T9, T10, T11>,
> for Alt<(P1, P2, P3, P4, P5, P6, P7, P8, P9, P10, P11)> where
    P1: Parser<'a, I, O, E, T1>,
    P2: Parser<'a, I, O, E, T2>,
    P3: Parser<'a, I, O, E, T3>,
    P4: Parser<'a, I, O, E, T4>,
    P5: Parser<'a, I, O, E, T5>,
    P6: Parser<'a, I, O, E, T6>,
    P7: Parser<'a, I, O, E, T7>,
    P8: Parser<'a, I, O, E, T8>,
    P9: Parser<'a, I, O, E, T9>,
    P10: Parser<'a, I, O, E, T10>,
    P11: Parser<'a, I, O, E, T11>,
 {
    open spec fn ready(&self) -> bool {
        &&& self.0.0.ready()
        &&& self.0.1.ready()
        &&& self.0.2.ready()
        &&& self.0.3.ready()
        &&& self.0.4.ready()
        &&& self.0.5.ready()
        &&& self.0.6.ready()
        &&& self.0.7.ready()
        &&& self.0.8.ready()
        &&& self.0.9.ready()
        &&& self.0.10.ready()
    }

    open spec fn outcome(&self, before: &I, res: Result<O, E>, after: &I) -> bool {
        match res {
            Ok(out) => self.0.0.outcome(before, Ok(out), after)
                    || fails_on::<I, O, E, T1, P1>(&self.0.0, before)
                    && (self.0.1.outcome(before, Ok(out), after)
                    || fails_on::<I, O, E, T2, P2>(&self.0.1, before)
                    && (self.0.2.outcome(before, Ok(out), after)
                    || fails_on::<I, O, E, T3, P3>(&self.0.2, before)
                    && (self.0.3.outcome(before, Ok(out), after)
                    || fails_on::<I, O, E, T4, P4>(&self.0.3, before)
                    && (self.0.4.outcome(before, Ok(out), after)
                    || fails_on::<I, O, E, T5, P5>(&self.0.4, before)
                    && (self.0.5.outcome(before, Ok(out), after)
                    || fails_on::<I, O, E, T6, P6>(&self.0.5, before)
                    && (self.0.6.outcome(before, Ok(out), after)
                    || fails_on::<I, O, E, T7, P7>(&self.0.6, before)
                    && (self.0.7.outcome(before, Ok(out), after)
                    || fails_on::<I, O, E, T8, P8>(&self.0.7, before)
                    && (self.0.8.outcome(before, Ok(out), after)
                    || fails_on::<I, O, E, T9, P9>(&self.0.8, before)
                    && (self.0.9.outcome(before, Ok(out), after)
                    || fails_on::<I, O, E, T10, P10>(&self.0.9, before)
                    && self.0.10.outcome(before, Ok(out), after)))))))))),
            Err(err) => {
                &&& after == before
                &&& exists|errs: Seq<E>|
                    {
                        &&& #[trigger] chosen(errs).err == Some(err)
                        &&& errs.len() == 11
                        &&& self.0.0.outcome(before, Err(errs[0]), before)
                        &&& self.0.1.outcome(before, Err(errs[1]), before)
                        &&& self.0.2.outcome(before, Err(errs[2]), before)
                        &&& self.0.3.outcome(before, Err(errs[3]), before)
                        &&& self.0.4.outcome(before, Err(errs[4]), before)
                        &&& self.0.5.outcome(before, Err(errs[5]), before)
                        &&& self.0.6.outcome(before, Err(errs[6]), before)
                        &&& self.0.7.outcome(before, Err(errs[7]), before)
                        &&& self.0.8.outcome(before, Err(errs[8]), before)
                        &&& self.0.9.outcome(before, Err(errs[9]), before)
                        &&& self.0.10.outcome(before, Err(errs[10]), before)
                    }
            },
        }
    }

    fn fab(&self, input: &mut &'a I) -> (res: Result<O, E>) {
        let startloc = *input;
        let mut best = Furthest::new();
        let ghost mut seen = Seq::<E>::empty();
        match self.0.0.fab(input) {
            Ok(out) => {
                return Ok(out);
            },
            Err(err) => {
                proof {
                    assert(self.0.0.outcome(startloc, Err(err), startloc));
                    lemma_chosen_push(seen, err);
                    seen = seen.push(err);
                }
                best.note(err);
            },
        }
        *input = startloc;
        match self.0.1.fab(input) {
            Ok(out) => {
                return Ok(out);
            },
            Err(err) => {
                proof {
                    assert(self.0.1.outcome(startloc, Err(err), startloc));
                    lemma_chosen_push(seen, err);
                    seen = seen.push(err);
                }
                best.note(err);
            },
        }
        *input = startloc;
        match self.0.2.fab(input) {
            Ok(out) => {
                return Ok(out);
            },
            Err(err) => {
                proof {
                    assert(self.0.2.outcome(startloc, Err(err), startloc));
                    lemma_chosen_push(seen, err);
                    seen = seen.push(err);
                }
                best.note(err);
            },
        }
        *input = startloc;
        match self.0.3.fab(input) {
            Ok(out) => {
                return Ok(out);
            },
            Err(err) => {
                proof {
                    assert(self.0.3.outcome(startloc, Err(err), startloc));
                    lemma_chosen_push(seen, err);
                    seen = seen.push(err);
                }
                best.note(err);
            },
        }
        *input = startloc;
        match self.0.4.fab(input) {
            Ok(out) => {
                return Ok(out);
            },
            Err(err) => {
                proof {
                    assert(self.0.4.outcome(startloc, Err(err), startloc));
                    lemma_chosen_push(seen, err);
                    seen = seen.push(err);
                }
                best.note(err);
            },
        }
        *input = startloc;
        match self.0.5.fab(input) {
            Ok(out) => {
                return Ok(out);
            },
            Err(err) => {
                proof {
                    assert(self.0.5.outcome(startloc, Err(err), startloc));
                    lemma_chosen_push(seen, err);
                    seen = seen.push(err);
                }
                best.note(err);
            },
        }
        *input = startloc;
        match self.0.6.fab(input) {
            Ok(out) => {
                return Ok(out);
            },
            Err(err) => {
                proof {
                    assert(self.0.6.outcome(startloc, Err(err), startloc));
                    lemma_chosen_push(seen, err);
                    seen = seen.push(err);
                }
                best.note(err);
            },
        }
        *input = startloc;
        match self.0.7.fab(input) {
            Ok(out) => {
                return Ok(out);
            },
            Err(err) => {
                proof {
                    assert(self.0.7.outcome(startloc, Err(err), startloc));
                    lemma_chosen_push(seen, err);
                    seen = seen.push(err);
                }
                best.note(err);
            },
        }
        *input = startloc;
        match self.0.8.fab(input) {
            Ok(out) => {
                return Ok(out);
            },
            Err(err) => {
                proof {
                    assert(self.0.8.outcome(startloc, Err(err), startloc));
                    lemma_chosen_push(seen, err);
                    seen = seen.push(err);
                }
                best.note(err);
            },
        }
        *input = startloc;
        match self.0.9.fab(input) {
            Ok(out) => {
                return Ok(out);
            },
            Err(err) => {
                proof {
                    assert(self.0.9.outcome(startloc, Err(err), startloc));
                    lemma_chosen_push(seen, err);
                    seen = seen.push(err);
                }
                best.note(err);
            },
        }
        *input = startloc;
        match self.0.10.fab(input) {
            Ok(out) => {
                return Ok(out);
            },
            Err(err) => {
                proof {
                    assert(self.0.10.outcome(startloc, Err(err), startloc));
                    lemma_chosen_push(seen, err);
                    seen = seen.push(err);
                }
                best.note(err);
            },
        }
        *input = startloc;
        let err = best.into_error();
        assert(chosen(seen).err == Some(err));
        Err(err)
    }
}


} // verus!
