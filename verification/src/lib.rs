//! A small library of parser combinators.
//!
//! A parser reads from the front of a cursor: a `&mut &str`, or a
//! `&mut &[T]`. Items, sequences, arrays, ranges and functions on items
//! are parsers, and so are tuples of parsers. [`alt`], [`permutation`],
//! [`opt`], [`take_not`] and the methods of [`Parser`] make parsers from
//! parsers.

use vstd::prelude::*;

pub mod branch;
pub mod combinator;
pub mod error;
pub mod laws;
pub mod permutation;
pub mod repeat;
pub mod sequence;
pub mod tag;
pub mod tuple;
pub mod util;

use crate::combinator::{Opt, ParserMap, ParserTryMap, TakeNot, Value};
use crate::repeat::{Reducer, VecReducer};
use crate::sequence::{is_suffix, Sequence};
use std::marker::PhantomData;

pub use crate::error::FabError;
pub use crate::error::NoContextFabError;
pub use crate::error::ParserError;
pub use crate::repeat::Repeat;
pub use crate::repeat::TryReducer;
pub use crate::repeat::TryReducerError;

verus! {

/// The kinds of parser. An error names the kind of the parser that failed.
#[derive(Debug, PartialEq, Eq, Structural, Clone, Copy)]
pub enum ParserType {
    Tag,
    Alt,
    Try,
    Mapped,
    TryMap,
    Function,
    TakeNot,
    Repeat,
    RepeatIter,
    Sequence,
    Permutation,
}

/// A parser reads from the front of a cursor. Where it succeeds it leaves
/// the cursor at what it has not read; where it fails it leaves the cursor
/// where it found it.
pub trait Parser<'a, I: ?Sized + Sequence, O, E: ParserError, PType> {
    /// What must hold of a parser for it to run: the functions that it is
    /// made of accept every argument.
    spec fn ready(&self) -> bool;

    /// Run on `before`, the parser may return `res` and leave the cursor
    /// at `after`.
    spec fn outcome(&self, before: &I, res: Result<O, E>, after: &I) -> bool;

    /// Parses the front of the input and advances the cursor past what was
    /// read. The method is not called `parse`, which `&str` has already.
    fn fab(&self, input: &mut &'a I) -> (res: Result<O, E>)
        requires
            self.ready(),
        ensures
            self.outcome(*old(input), res, *final(input)),
            res is Err ==> *final(input) == *old(input),
            res is Ok ==> is_suffix(final(input).items(), old(input).items()),
    ;

    /// The parser that returns a clone of `value` where this one succeeds.
    fn fab_value<V: Clone>(self, value: V) -> (made: Value<Self, V, I, O, E>) where Self: Sized
        ensures
            made.parser == self,
            made.value == value,
    {
        Value {
            parser: self,
            value,
            phantom_i: PhantomData,
            phantom_o: PhantomData,
            phantom_e: PhantomData,
        }
    }

    /// The parser that applies `func` to what this one returns.
    fn fab_map<F>(self, func: F) -> (made: ParserMap<Self, I, O, E, F>) where Self: Sized
        ensures
            made.parser == self,
            made.func == func,
    {
        ParserMap {
            parser: self,
            func,
            phantom_i: PhantomData,
            phantom_e: PhantomData,
            phantom_m: PhantomData,
        }
    }

    /// The parser that applies `func` to what this one returns, and fails
    /// where `func` gives `None` or an error.
    fn fab_try_map<F>(self, func: F) -> (made: ParserTryMap<Self, I, O, E, F>) where Self: Sized
        ensures
            made.parser == self,
            made.func == func,
    {
        ParserTryMap {
            parser: self,
            func,
            phantom_i: PhantomData,
            phantom_e: PhantomData,
            phantom_m: PhantomData,
        }
    }

    /// The parser that applies this one as often as it succeeds, and
    /// returns what it returned in a vector. The methods of [`Repeat`]
    /// change the number of repetitions and what is returned.
    fn fab_repeat(self) -> (made: Repeat<Self, I, O, E, VecReducer, Vec<O>>) where
        Self: Sized,
        O: Clone,

        ensures
            made.inner() == self,
            made.fold().acc@ == Seq::<O>::empty(),
            made.lower() == 0,
            made.upper() == usize::MAX,
    {
        Repeat::new(self, Reducer { acc: Vec::new(), reduce_operator: VecReducer }, 0..usize::MAX)
    }
}

/// The parser that tries the parsers of a tuple in turn, and returns what
/// the first that succeeds returns. Where none succeeds, its error is that
/// of the parser that came furthest.
pub fn alt<T>(parsers: T) -> (made: branch::Alt<T>)
    ensures
        made.0 == parsers,
{
    branch::Alt(parsers)
}

/// The parser that runs the parsers of a tuple, each once, in whatever
/// order they succeed in. It returns what they returned in the order of the
/// tuple.
pub fn permutation<T>(parsers: T) -> (made: branch::Permutation<T>)
    ensures
        made.0 == parsers,
{
    branch::Permutation(parsers)
}

/// The parser that reads `count` items: characters of a string, elements
/// of a slice.
pub fn take(count: usize) -> (made: tag::Take)
    ensures
        made.0 == count,
{
    tag::Take(count)
}

/// The parser that returns `Some` of what `parser` returns, and `None`,
/// reading nothing, where `parser` fails.
pub fn opt<T>(parser: T) -> (made: combinator::Opt<T>)
    ensures
        made.parser == parser,
{
    Opt { parser }
}

/// The parser that reads one item where `parser` fails, and fails where
/// `parser` succeeds.
pub fn take_not<T>(parser: T) -> (made: combinator::TakeNot<T>)
    ensures
        made.parser == parser,
{
    TakeNot { parser }
}

} // verus!
