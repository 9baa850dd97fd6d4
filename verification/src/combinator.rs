//! The parsers that change what one parser returns, or whether it fails.

use crate::error::{position, reports_cause, Cause, ParserError};
use crate::sequence::{lemma_suffix_of_self, Sequence};
use crate::tag::splits_front;
use crate::{Parser, ParserType};
use std::marker::PhantomData;
use vstd::prelude::*;

verus! {

/// The parser that applies a function to what another parser returns.
pub struct ParserMap<P, I: ?Sized, M, E, F> {
    pub parser: P,
    pub func: F,
    pub phantom_i: PhantomData<I>,
    pub phantom_e: PhantomData<E>,
    pub phantom_m: PhantomData<M>,
}

/// Marks the parser that a [`ParserMap`] is.
pub struct ParserMapT<PType, M> {
    phantom_ptype: PhantomData<PType>,
    phantom_m: PhantomData<M>,
}

impl<'a, P, M, I, O, E: ParserError, PType, F> Parser<'a, I, O, E, ParserMapT<PType, M>> for ParserMap<
    P,
    I,
    M,
    E,
    F,
> where P: Parser<'a, I, M, E, PType>, F: Fn(M) -> O, I: ?Sized + Sequence {
    open spec fn ready(&self) -> bool {
        &&& self.parser.ready()
        &&& forall|mid: M| call_requires(self.func, (mid,))
    }

    /// Where the inner parser succeeds, the result is what the function
    /// makes of its value and the cursor is where the inner parser left it;
    /// where it fails, its error is the error.
    open spec fn outcome(&self, before: &I, res: Result<O, E>, after: &I) -> bool {
        match res {
            Ok(out) => exists|mid: M|
                #![trigger self.parser.outcome(before, Ok(mid), after)]
                self.parser.outcome(before, Ok(mid), after) && call_ensures(self.func, (mid,), out),
            Err(err) => self.parser.outcome(before, Err(err), after),
        }
    }

    fn fab(&self, input: &mut &'a I) -> (res: Result<O, E>) {
        match self.parser.fab(input) {
            Ok(mid) => Ok((self.func)(mid)),
            Err(err) => Err(err),
        }
    }
}

/// The parser that applies a function that may decline to what another
/// parser returns.
pub struct ParserTryMap<P, I: ?Sized, M, E, F> {
    pub parser: P,
    pub func: F,
    pub phantom_i: PhantomData<I>,
    pub phantom_e: PhantomData<E>,
    pub phantom_m: PhantomData<M>,
}

/// Marks the parser that a [`ParserTryMap`] with a function to an option is.
pub struct ParserTryMapOption<PType, M> {
    phantom_ptype: PhantomData<PType>,
    phantom_m: PhantomData<M>,
}

impl<'a, P, M, I: ?Sized + Sequence, O, E: ParserError, PType, F> Parser<
    'a,
    I,
    O,
    E,
    ParserTryMapOption<PType, M>,
> for ParserTryMap<P, I, M, E, F> where P: Parser<'a, I, M, E, PType>, F: Fn(M) -> Option<O> {
    open spec fn ready(&self) -> bool {
        &&& self.parser.ready()
        &&& forall|mid: M| call_requires(self.func, (mid,))
    }

    /// Where the inner parser succeeds and the function gives a value, the
    /// value is the result. Where the function gives none, the error is of
    /// kind `TryMap`, at the entry. Where the inner parser fails, the error
    /// is its error with a frame for the entry.
    open spec fn outcome(&self, before: &I, res: Result<O, E>, after: &I) -> bool {
        match res {
            Ok(out) => exists|mid: M, given: Option<O>|
                #![trigger self.parser.outcome(before, Ok(mid), after), call_ensures(self.func, (mid,), given)]
                {
                    &&& self.parser.outcome(before, Ok(mid), after)
                    &&& call_ensures(self.func, (mid,), given)
                    &&& given == Some(out)
                },
            Err(err) => {
                &&& after == before
                &&& {
                    ||| exists|inner: E|
                        #![trigger self.parser.outcome(before, Err(inner), before)]
                        {
                            &&& self.parser.outcome(before, Err(inner), before)
                            &&& err.extends(&inner, position(before), ParserType::Mapped)
                        }
                    ||| exists|mid: M, moved: &I|
                        #![trigger self.parser.outcome(before, Ok(mid), moved)]
                        {
                            &&& self.parser.outcome(before, Ok(mid), moved)
                            &&& call_ensures(self.func, (mid,), None::<O>)
                            &&& err.is_parser_error(position(before), ParserType::TryMap)
                        }
                }
            },
        }
    }

    fn fab(&self, input: &mut &'a I) -> (res: Result<O, E>) {
        let checkpoint = *input;
        match self.parser.fab(input) {
            Ok(mid) => {
                match (self.func)(mid) {
                    Some(out) => Ok(out),
                    None => {
                        *input = checkpoint;
                        Err(E::from_parser_error(*input, ParserType::TryMap))
                    },
                }
            },
            Err(inner) => {
                let mut err = inner;
                err.add_context(checkpoint, ParserType::Mapped);
                Err(err)
            },
        }
    }
}

/// Marks the parser that a [`ParserTryMap`] with a function to a result is.
pub struct ParserTryMapResult<PType, M, FErr> {
    phantom_ptype: PhantomData<PType>,
    phantom_m: PhantomData<M>,
    phantom_ferr: PhantomData<FErr>,
}

impl<'a, P, M, I, O, E: ParserError, PType, FErr, F> Parser<
    'a,
    I,
    O,
    E,
    ParserTryMapResult<PType, M, FErr>,
> for ParserTryMap<P, I, M, E, F> where
    P: Parser<'a, I, M, E, PType>,
    FErr: Cause,
    F: Fn(M) -> Result<O, FErr>,
    I: ?Sized + Sequence,
 {
    open spec fn ready(&self) -> bool {
        &&& self.parser.ready()
        &&& forall|mid: M| call_requires(self.func, (mid,))
    }

    /// As with a function to an option, but that the function's own error
    /// is the cause of the error of kind `TryMap`.
    open spec fn outcome(&self, before: &I, res: Result<O, E>, after: &I) -> bool {
        match res {
            Ok(out) => exists|mid: M, given: Result<O, FErr>|
                #![trigger self.parser.outcome(before, Ok(mid), after), call_ensures(self.func, (mid,), given)]
                {
                    &&& self.parser.outcome(before, Ok(mid), after)
                    &&& call_ensures(self.func, (mid,), given)
                    &&& given == Ok::<O, FErr>(out)
                },
            Err(err) => {
                &&& after == before
                &&& {
                    ||| exists|inner: E|
                        #![trigger self.parser.outcome(before, Err(inner), before)]
                        {
                            &&& self.parser.outcome(before, Err(inner), before)
                            &&& err.extends(&inner, position(before), ParserType::Mapped)
                        }
                    ||| exists|mid: M, moved: &I, given: Result<O, FErr>|
                        #![trigger self.parser.outcome(before, Ok(mid), moved), call_ensures(self.func, (mid,), given)]
                        {
                            &&& self.parser.outcome(before, Ok(mid), moved)
                            &&& call_ensures(self.func, (mid,), given)
                            &&& given matches Err(cause) && reports_cause(
                                err,
                                position(before),
                                ParserType::TryMap,
                                cause,
                            )
                        }
                }
            },
        }
    }

    fn fab(&self, input: &mut &'a I) -> (res: Result<O, E>) {
        let checkpoint = *input;
        match self.parser.fab(input) {
            Ok(mid) => {
                match (self.func)(mid) {
                    Ok(out) => Ok(out),
                    Err(cause) => {
                        *input = checkpoint;
                        Err(E::from_external_error(*input, ParserType::TryMap, cause))
                    },
                }
            },
            Err(inner) => {
                let mut err = inner;
                err.add_context(checkpoint, ParserType::Mapped);
                Err(err)
            },
        }
    }
}

/// The parser that lets another parser fail: it then reads nothing.
pub struct Opt<P> {
    pub parser: P,
}

impl<'a, I: ?Sized + Sequence, O, E: ParserError, PType, P> Parser<
    'a,
    I,
    Option<O>,
    E,
    Opt<PType>,
> for Opt<P> where P: Parser<'a, I, O, E, PType> {
    open spec fn ready(&self) -> bool {
        self.parser.ready()
    }

    /// Where the inner parser succeeds, its value is the result; where it
    /// fails, the result is `None` and the cursor stays.
    open spec fn outcome(&self, before: &I, res: Result<Option<O>, E>, after: &I) -> bool {
        match res {
            Ok(Some(out)) => self.parser.outcome(before, Ok(out), after),
            Ok(None) => {
                &&& after == before
                &&& exists|inner: E| #[trigger] self.parser.outcome(before, Err(inner), before)
            },
            Err(_) => false,
        }
    }

    fn fab(&self, input: &mut &'a I) -> (res: Result<Option<O>, E>)
        ensures
            res is Ok,
    {
        match self.parser.fab(input) {
            Ok(out) => Ok(Some(out)),
            Err(_) => {
                proof {
                    lemma_suffix_of_self(input.items());
                }
                Ok(None)
            },
        }
    }
}

/// The parser that reads one item where another parser fails.
pub struct TakeNot<P> {
    pub parser: P,
}

/// Marks the parser that a [`TakeNot`] is.
pub struct TakeNotParser<P, O> {
    pub parser: PhantomData<P>,
    pub out: PhantomData<O>,
}

impl<'a, I, O, E: ParserError, ParType, P, Item> Parser<
    'a,
    I,
    Item,
    E,
    TakeNotParser<ParType, O>,
> for TakeNot<P> where P: Parser<'a, I, O, E, ParType>, I: ?Sized + Sequence<Item = Item> {
    open spec fn ready(&self) -> bool {
        self.parser.ready()
    }

    /// Where the inner parser fails and an item is there, the item is read
    /// and returned. Where the inner parser succeeds, or nothing is there,
    /// the error is of kind `TakeNot`.
    open spec fn outcome(&self, before: &I, res: Result<Item, E>, after: &I) -> bool {
        match res {
            Ok(item) => {
                &&& exists|inner: E| #[trigger] self.parser.outcome(before, Err(inner), before)
                &&& splits_front(before, item, after)
            },
            Err(err) => {
                &&& after == before
                &&& err.is_parser_error(position(before), ParserType::TakeNot)
                &&& {
                    ||| exists|out: O, moved: &I| #[trigger]
                        self.parser.outcome(before, Ok(out), moved)
                    ||| {
                        &&& before.items().len() == 0
                        &&& exists|inner: E| #[trigger]
                            self.parser.outcome(before, Err(inner), before)
                    }
                }
            },
        }
    }

    fn fab(&self, input: &mut &'a I) -> (res: Result<Item, E>) {
        let checkpoint = *input;
        let ghost moved = *input;
        let tried = self.parser.fab(input);
        proof {
            moved = *input;
        }
        match tried {
            Ok(out) => {
                assert(self.parser.outcome(checkpoint, Ok(out), moved));
                *input = checkpoint;
                Err(E::from_parser_error(*input, ParserType::TakeNot))
            },
            Err(inner) => {
                assert(self.parser.outcome(checkpoint, Err(inner), checkpoint));
                *input = checkpoint;
                match input.try_split_front() {
                    Some((first, rest)) => {
                        *input = rest;
                        Ok(first)
                    },
                    None => Err(E::from_parser_error(*input, ParserType::TakeNot)),
                }
            },
        }
    }
}

/// The parser that returns a given value where another parser succeeds.
pub struct Value<P, V, I: ?Sized, O, E> {
    pub parser: P,
    pub value: V,
    pub phantom_i: PhantomData<I>,
    pub phantom_o: PhantomData<O>,
    pub phantom_e: PhantomData<E>,
}

/// Marks the parser that a [`Value`] is.
pub struct ValueParser<P, O> {
    pub parser: PhantomData<P>,
    pub out: PhantomData<O>,
}

impl<'a, I, O, E: ParserError, ParType, P, V> Parser<'a, I, V, E, ValueParser<ParType, O>> for Value<
    P,
    V,
    I,
    O,
    E,
> where P: Parser<'a, I, O, E, ParType>, I: ?Sized + Sequence, V: Clone {
    open spec fn ready(&self) -> bool {
        self.parser.ready()
    }

    /// Where the inner parser succeeds, the result is a clone of the value;
    /// where it fails, its error is the error.
    open spec fn outcome(&self, before: &I, res: Result<V, E>, after: &I) -> bool {
        match res {
            Ok(value) => {
                &&& cloned(self.value, value)
                &&& exists|out: O| #[trigger] self.parser.outcome(before, Ok(out), after)
            },
            Err(err) => self.parser.outcome(before, Err(err), after),
        }
    }

    fn fab(&self, input: &mut &'a I) -> (res: Result<V, E>) {
        match self.parser.fab(input) {
            Ok(_) => Ok(self.value.clone()),
            Err(err) => Err(err),
        }
    }
}

} // verus!
