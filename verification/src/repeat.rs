//! Repetition: a parser applied again and again, and what is made of what
//! it returns.

use crate::error::{loc, position, reports_cause, Cause, ParserError};
use crate::sequence::{
    is_suffix, lemma_suffix_of_self, lemma_suffix_of_suffix, subtract, Sequence,
};
use crate::tag::{last_of, End};
use crate::{Parser, ParserType};
use std::convert::Infallible;
use std::marker::PhantomData;
use std::ops::{
    Bound, Range, RangeFrom, RangeFull, RangeInclusive, RangeTo, RangeToInclusive,
};
use vstd::prelude::*;

verus! {

/// The error of a reducer that says no more than that it failed: one that
/// returns `false` or `None`.
#[derive(Clone, Debug, Copy)]
pub struct TryReducerError;

impl Cause for TryReducerError {
    open spec fn describes(&self, text: Seq<char>) -> bool {
        text == "ReducerFailed"@
    }

    fn describe(&self) -> (text: String) {
        "ReducerFailed".to_string()
    }
}

/// How a repetition folds what its parser returns into an accumulator, and
/// what it makes of the accumulator at the end.
///
/// `Acc` is the accumulator and `T` what is folded into it; `FType` only
/// tells the implementations apart; `FErr` is the error of the fold and
/// `Out` what the repetition returns.
pub trait TryReducer<'a, Acc, T, FType, FErr, Out, I: ?Sized + Sequence> {
    /// What must hold of a reducer for it to run.
    spec fn ready(&self) -> bool;

    /// Folding `val` into `acc` may give `res` and leave `after`.
    spec fn reduces(&self, acc: Acc, val: T, res: Result<(), FErr>, after: Acc) -> bool;

    /// For a repetition that started at `orig_input` and ended at
    /// `new_input` with `acc`, `out` may be returned.
    spec fn finalizes(&self, acc: Acc, orig_input: &I, new_input: &I, out: Out) -> bool;

    /// Folds `val` into `acc`, and returns what is left of `acc` and
    /// whether the fold was made.
    fn try_reduce(&self, acc: Acc, val: T) -> (out: (Acc, Result<(), FErr>))
        requires
            self.ready(),
        ensures
            self.reduces(acc, val, out.1, out.0),
    ;

    /// What the repetition returns at its end.
    fn finalize(&self, acc: Acc, orig_input: &'a I, new_input: &'a I) -> (out: Out)
        requires
            is_suffix(new_input.items(), orig_input.items()),
        ensures
            self.finalizes(acc, orig_input, new_input, out),
    ;
}

/// Calls a function that folds on an accumulator and a value, and returns
/// what the function left of the accumulator and what it returned.
pub fn fold_once<Acc, T, R, F: Fn(&mut Acc, T) -> R>(fold: &F, acc: Acc, val: T) -> (out: (Acc, R))
    requires
        forall|slot: &mut Acc| call_requires(*fold, (slot, val)),
    ensures
        exists|slot: &mut Acc, given: R|
            {
                &&& *slot == acc
                &&& *final(slot) == out.0
                &&& given == out.1
                &&& #[trigger] call_ensures(*fold, (slot, val), given)
            },
{
    let mut folded = acc;
    let given = fold(&mut folded, val);
    (folded, given)
}

/// Called on `acc` and `val`, the function `fold` may leave `after` of
/// `acc` and return `given`: it is a result of [`fold_once`], of which the
/// `ensures` of [`fold_once`] holds.
pub open spec fn folds<Acc, T, R, F: Fn(&mut Acc, T) -> R>(
    fold: &F,
    acc: Acc,
    val: T,
    after: Acc,
    given: R,
) -> bool {
    call_ensures(fold_once::<Acc, T, R, F>, (fold, acc, val), (after, given))
}

/// Marks the reducer that a function to a result is.
pub struct ResultReducer;

/// A function that folds and may fail with an error of its own.
impl<'a, Acc, T, F, FErr, I: ?Sized + Sequence> TryReducer<
    'a,
    Acc,
    T,
    ResultReducer,
    FErr,
    Acc,
    I,
> for F where F: Fn(&mut Acc, T) -> Result<(), FErr> {
    open spec fn ready(&self) -> bool {
        forall|slot: &mut Acc, val: T| call_requires(*self, (slot, val))
    }

    open spec fn reduces(&self, acc: Acc, val: T, res: Result<(), FErr>, after: Acc) -> bool {
        folds(self, acc, val, after, res)
    }

    open spec fn finalizes(&self, acc: Acc, orig_input: &I, new_input: &I, out: Acc) -> bool {
        out == acc
    }

    fn try_reduce(&self, acc: Acc, val: T) -> (out: (Acc, Result<(), FErr>)) {
        fold_once(self, acc, val)
    }

    fn finalize(&self, acc: Acc, _orig_input: &'a I, _new_input: &'a I) -> (out: Acc) {
        acc
    }
}

/// Marks the reducer that a function to an option is.
pub struct OptionReducer();

/// A function that folds and fails by returning `None`.
impl<'a, Acc, T, F, I: ?Sized + Sequence> TryReducer<
    'a,
    Acc,
    T,
    OptionReducer,
    TryReducerError,
    Acc,
    I,
> for F where F: Fn(&mut Acc, T) -> Option<()> {
    open spec fn ready(&self) -> bool {
        forall|slot: &mut Acc, val: T| call_requires(*self, (slot, val))
    }

    open spec fn reduces(
        &self,
        acc: Acc,
        val: T,
        res: Result<(), TryReducerError>,
        after: Acc,
    ) -> bool {
        exists|given: Option<()>|
            #[trigger] folds(self, acc, val, after, given) && (res is Ok <==> given is Some)
    }

    open spec fn finalizes(&self, acc: Acc, orig_input: &I, new_input: &I, out: Acc) -> bool {
        out == acc
    }

    fn try_reduce(&self, acc: Acc, val: T) -> (out: (Acc, Result<(), TryReducerError>)) {
        let (after, given) = fold_once(self, acc, val);
        assert(folds(self, acc, val, after, given));
        match given {
            Some(_) => (after, Ok(())),
            None => (after, Err(TryReducerError)),
        }
    }

    fn finalize(&self, acc: Acc, _orig_input: &'a I, _new_input: &'a I) -> (out: Acc) {
        acc
    }
}

/// Marks the reducer that a function to a `bool` is.
pub struct BoolReducer;

/// A function that folds and fails by returning `false`.
impl<'a, Acc, T, F, I: ?Sized + Sequence> TryReducer<
    'a,
    Acc,
    T,
    BoolReducer,
    TryReducerError,
    Acc,
    I,
> for F where F: Fn(&mut Acc, T) -> bool {
    open spec fn ready(&self) -> bool {
        forall|slot: &mut Acc, val: T| call_requires(*self, (slot, val))
    }

    open spec fn reduces(
        &self,
        acc: Acc,
        val: T,
        res: Result<(), TryReducerError>,
        after: Acc,
    ) -> bool {
        exists|given: bool| #[trigger] folds(self, acc, val, after, given) && (res is Ok <==> given)
    }

    open spec fn finalizes(&self, acc: Acc, orig_input: &I, new_input: &I, out: Acc) -> bool {
        out == acc
    }

    fn try_reduce(&self, acc: Acc, val: T) -> (out: (Acc, Result<(), TryReducerError>)) {
        let (after, given) = fold_once(self, acc, val);
        assert(folds(self, acc, val, after, given));
        if given {
            (after, Ok(()))
        } else {
            (after, Err(TryReducerError))
        }
    }

    fn finalize(&self, acc: Acc, _orig_input: &'a I, _new_input: &'a I) -> (out: Acc) {
        acc
    }
}

/// Marks the reducer that a function to nothing is.
pub struct InfallibleReducer;

/// A function that folds and never fails.
impl<'a, Acc, T, F, I: ?Sized + Sequence> TryReducer<
    'a,
    Acc,
    T,
    InfallibleReducer,
    Infallible,
    Acc,
    I,
> for F where F: Fn(&mut Acc, T) -> () {
    open spec fn ready(&self) -> bool {
        forall|slot: &mut Acc, val: T| call_requires(*self, (slot, val))
    }

    open spec fn reduces(&self, acc: Acc, val: T, res: Result<(), Infallible>, after: Acc) -> bool {
        &&& res is Ok
        &&& folds(self, acc, val, after, ())
    }

    open spec fn finalizes(&self, acc: Acc, orig_input: &I, new_input: &I, out: Acc) -> bool {
        out == acc
    }

    fn try_reduce(&self, acc: Acc, val: T) -> (out: (Acc, Result<(), Infallible>)) {
        let (after, given) = fold_once(self, acc, val);
        assert(folds(self, acc, val, after, given));
        (after, Ok(()))
    }

    fn finalize(&self, acc: Acc, _orig_input: &'a I, _new_input: &'a I) -> (out: Acc) {
        acc
    }
}

/// The reducer that keeps nothing and returns the part of the input that
/// the repetition has read.
pub struct InputSliceReducer;

impl<'a, T, I: ?Sized> TryReducer<'a, (), T, InputSliceReducer, Infallible, &'a I, I> for InputSliceReducer where
    I: Sequence,
 {
    open spec fn ready(&self) -> bool {
        true
    }

    open spec fn reduces(&self, acc: (), val: T, res: Result<(), Infallible>, after: ()) -> bool {
        res is Ok
    }

    open spec fn finalizes(&self, acc: (), orig_input: &I, new_input: &I, out: &'a I) -> bool {
        out.items() + new_input.items() == orig_input.items()
    }

    fn try_reduce(&self, acc: (), _val: T) -> (out: ((), Result<(), Infallible>)) {
        (acc, Ok(()))
    }

    fn finalize(&self, _acc: (), orig_input: &'a I, new_input: &'a I) -> (out: &'a I) {
        subtract(orig_input, new_input)
    }
}

/// The reducer that a repetition starts with: it appends each value to a
/// vector.
pub struct VecReducer;

impl<'a, T, I: ?Sized> TryReducer<'a, Vec<T>, T, VecReducer, Infallible, Vec<T>, I> for VecReducer where
    I: Sequence,
 {
    open spec fn ready(&self) -> bool {
        true
    }

    open spec fn reduces(
        &self,
        acc: Vec<T>,
        val: T,
        res: Result<(), Infallible>,
        after: Vec<T>,
    ) -> bool {
        &&& res is Ok
        &&& after@ == acc@.push(val)
    }

    open spec fn finalizes(&self, acc: Vec<T>, orig_input: &I, new_input: &I, out: Vec<T>) -> bool {
        out == acc
    }

    fn try_reduce(&self, acc: Vec<T>, val: T) -> (out: (Vec<T>, Result<(), Infallible>)) {
        let mut acc = acc;
        acc.push(val);
        (acc, Ok(()))
    }

    fn finalize(&self, acc: Vec<T>, _orig_input: &'a I, _new_input: &'a I) -> (out: Vec<T>) {
        acc
    }
}

/// Where a fold starts and how it goes on.
pub struct Reducer<Reduce, Acc: Clone> {
    pub acc: Acc,
    pub reduce_operator: Reduce,
}

/// The parser that applies another parser again and again and folds what
/// it returns. `fab_repeat` makes one; its methods set the number of
/// repetitions and the fold.
pub struct Repeat<P, ParI: ?Sized, ParO, ParE, F, Acc: Clone> {
    parser: P,
    reducer: Reducer<F, Acc>,
    bounds: Range<usize>,
    phantom_i: PhantomData<ParI>,
    phantom_o: PhantomData<ParO>,
    phantom_e: PhantomData<ParE>,
}

/// Marks the parser that a [`Repeat`] is.
pub struct RepeatParser<PType, ReducerOut, FErr> {
    ptype: PhantomData<PType>,
    reducer_out: PhantomData<ReducerOut>,
    ferr: PhantomData<FErr>,
}

impl<P, ParI: ?Sized, ParO, ParE, F, Acc: Clone> Repeat<P, ParI, ParO, ParE, F, Acc> {
    /// The parser that is repeated.
    pub closed spec fn inner(&self) -> P {
        self.parser
    }

    /// The fold.
    pub closed spec fn fold(&self) -> Reducer<F, Acc> {
        self.reducer
    }

    /// The least number of repetitions that is accepted.
    pub closed spec fn lower(&self) -> usize {
        self.bounds.start
    }

    /// The number of repetitions that is no longer accepted.
    pub closed spec fn upper(&self) -> usize {
        self.bounds.end
    }

    /// What the repetition may come to from `cur`, after `reps`
    /// repetitions with the accumulator `acc`: see [`rounds`].
    pub open spec fn comes_to<'a, PType, FErr, ReducerOut, AccOut>(
        &self,
        start: &ParI,
        reps: nat,
        cur: &ParI,
        acc: Acc,
        res: Result<AccOut, ParE>,
        after: &ParI,
    ) -> bool where
        ParE: ParserError,
        ParI: Sequence,
        P: Parser<'a, ParI, ParO, ParE, PType>,
        FErr: Cause,
        F: TryReducer<'a, Acc, ParO, ReducerOut, FErr, AccOut, ParI>,
     {
        rounds(
            &self.inner(),
            &self.fold().reduce_operator,
            self.lower(),
            self.upper(),
            start,
            reps,
            cur,
            acc,
            res,
            after,
        )
    }

    /// Constructs a repetition. Prefer the method `fab_repeat` of a parser.
    pub fn new(parser: P, reducer: Reducer<F, Acc>, bounds: Range<usize>) -> (repeat: Self)
        ensures
            repeat.inner() == parser,
            repeat.fold() == reducer,
            repeat.lower() == bounds.start,
            repeat.upper() == bounds.end,
    {
        Repeat {
            parser,
            reducer,
            bounds,
            phantom_i: PhantomData,
            phantom_o: PhantomData,
            phantom_e: PhantomData,
        }
    }
}

/// The repetition ends well at `cur`: the result is what the reducer makes
/// of the accumulator.
pub open spec fn finishes<'a, I, O, E, F, Acc, FErr, ReducerOut, AccOut>(
    fold: &F,
    start: &I,
    cur: &I,
    acc: Acc,
    res: Result<AccOut, E>,
    after: &I,
) -> bool where
    I: ?Sized + Sequence,
    F: TryReducer<'a, Acc, O, ReducerOut, FErr, AccOut, I>,
 {
    &&& after == cur
    &&& res matches Ok(out) && fold.finalizes(acc, start, cur, out)
}

/// The repetition fails for want of repetitions: the error is of kind
/// `Repeat`, at the start.
pub open spec fn falls_short<I: ?Sized + Sequence, E: ParserError, AccOut>(
    start: &I,
    res: Result<AccOut, E>,
    after: &I,
) -> bool {
    &&& after == start
    &&& res matches Err(err) && err.is_parser_error(position(start), ParserType::Repeat)
}

/// The repetition fails because the parser read nothing at `cur`: the
/// error is of kind `RepeatIter`, at `cur`, with a frame of kind `Repeat`
/// for the start.
pub open spec fn stalls<I: ?Sized + Sequence, E: ParserError, AccOut>(
    start: &I,
    cur: &I,
    res: Result<AccOut, E>,
    after: &I,
) -> bool {
    &&& after == start
    &&& res matches Err(err) && exists|inner: E|
        {
            &&& #[trigger] inner.is_parser_error(position(cur), ParserType::RepeatIter)
            &&& err.extends(&inner, position(start), ParserType::Repeat)
        }
}

/// The repetition fails because the reducer failed with `cause` on what
/// was read from `cur`: the error is of kind `RepeatIter`, at `cur`, with
/// `cause` and a frame of kind `Repeat` for the start.
pub open spec fn is_refused<I: ?Sized + Sequence, E: ParserError, FErr: Cause, AccOut>(
    start: &I,
    cur: &I,
    cause: FErr,
    res: Result<AccOut, E>,
    after: &I,
) -> bool {
    &&& after == start
    &&& res matches Err(err) && exists|inner: E|
        {
            &&& #[trigger] reports_cause(inner, position(cur), ParserType::RepeatIter, cause)
            &&& err.extends(&inner, position(start), ParserType::Repeat)
        }
}

/// What a repetition that started at `start` may come to, when it stands
/// at `cur` after `reps` repetitions with the accumulator `acc`.
///
/// With `upper - 1` repetitions made it ends well. Else the parser runs.
/// Where it fails, the repetition ends well if `reps` is at least `lower`,
/// and falls short if not. Where it succeeds without moving the cursor,
/// the repetition stalls. Else its value is folded into the accumulator:
/// where that fails the repetition is refused, and else it goes on.
pub open spec fn rounds<'a, P, I, O, E, PType, F, Acc, FErr, ReducerOut, AccOut>(
    parser: &P,
    fold: &F,
    lower: usize,
    upper: usize,
    start: &I,
    reps: nat,
    cur: &I,
    acc: Acc,
    res: Result<AccOut, E>,
    after: &I,
) -> bool where
    E: ParserError,
    I: ?Sized + Sequence,
    P: Parser<'a, I, O, E, PType>,
    FErr: Cause,
    F: TryReducer<'a, Acc, O, ReducerOut, FErr, AccOut, I>,

    decreases upper - reps,
{
    if reps + 1 >= upper {
        finishes(fold, start, cur, acc, res, after)
    } else {
        ||| {
            &&& exists|inner: E| #[trigger] parser.outcome(cur, Err(inner), cur)
            &&& if lower <= reps {
                finishes(fold, start, cur, acc, res, after)
            } else {
                falls_short(start, res, after)
            }
        }
        ||| exists|val: O, next: &I|
            {
                &&& #[trigger] parser.outcome(cur, Ok(val), next)
                &&& if position(next) == position(cur) {
                    stalls(start, cur, res, after)
                } else {
                    exists|step: Result<(), FErr>, folded: Acc|
                        {
                            &&& #[trigger] fold.reduces(acc, val, step, folded)
                            &&& match step {
                                Ok(_) => rounds(
                                    parser,
                                    fold,
                                    lower,
                                    upper,
                                    start,
                                    reps + 1,
                                    next,
                                    folded,
                                    res,
                                    after,
                                ),
                                Err(cause) => is_refused(start, cur, cause, res, after),
                            }
                        }
                }
            }
    }
}

/// No regression. Where the parser can only succeed at `cur`, and only
/// without moving the cursor, a repetition that has not made all its
/// repetitions there stalls: it fails, and does not go on.
pub proof fn lemma_repeat_stalls<'a, P, I, O, E, PType, F, Acc, FErr, ReducerOut, AccOut>(
    parser: &P,
    fold: &F,
    lower: usize,
    upper: usize,
    start: &I,
    reps: nat,
    cur: &I,
    acc: Acc,
    res: Result<AccOut, E>,
    after: &I,
) where
    E: ParserError,
    I: ?Sized + Sequence,
    P: Parser<'a, I, O, E, PType>,
    FErr: Cause,
    F: TryReducer<'a, Acc, O, ReducerOut, FErr, AccOut, I>,

    requires
        reps + 1 < upper,
        forall|given: Result<O, E>, next: &I| #[trigger]
            parser.outcome(cur, given, next) ==> given is Ok && position(next) == position(cur),
        rounds(parser, fold, lower, upper, start, reps, cur, acc, res, after),
    ensures
        stalls(start, cur, res, after),
        res is Err,
        after == start,
{
}

impl<'a, P, I, O, E, PType, F, Acc, FErr, ReducerOut, AccOut> Parser<
    'a,
    I,
    AccOut,
    E,
    RepeatParser<PType, ReducerOut, FErr>,
> for Repeat<P, I, O, E, F, Acc> where
    E: ParserError,
    I: ?Sized + Sequence,
    P: Parser<'a, I, O, E, PType>,
    Acc: Clone,
    FErr: Cause,
    F: TryReducer<'a, Acc, O, ReducerOut, FErr, AccOut, I>,
 {
    open spec fn ready(&self) -> bool {
        &&& self.inner().ready()
        &&& self.fold().reduce_operator.ready()
    }

    /// With no number of repetitions to accept, the repetition falls
    /// short. Else it comes to what [`rounds`] says, from a clone of the
    /// accumulator that it was given.
    open spec fn outcome(&self, before: &I, res: Result<AccOut, E>, after: &I) -> bool {
        if self.lower() >= self.upper() {
            falls_short(before, res, after)
        } else {
            exists|acc: Acc|
                {
                    &&& cloned(self.fold().acc, acc)
                    &&& #[trigger] self.comes_to(before, 0, before, acc, res, after)
                }
        }
    }

    fn fab(&self, input: &mut &'a I) -> (res: Result<AccOut, E>) {
        let mut acc = self.reducer.acc.clone();
        let ghost first = acc;
        let mut repetitions: usize = 0;
        let orig_input = *input;
        if self.bounds.start >= self.bounds.end {
            return Err(E::from_parser_error(*input, ParserType::Repeat));
        }
        proof {
            lemma_suffix_of_self(orig_input.items());
        }
        loop
            invariant
                orig_input == *old(input),
                self.ready(),
                self.bounds.start < self.bounds.end,
                repetitions < self.bounds.end,
                cloned(self.reducer.acc, first),
                is_suffix(input.items(), orig_input.items()),
                forall|res: Result<AccOut, E>, after: &I| #[trigger]
                    self.comes_to(orig_input, repetitions as nat, *input, acc, res, after)
                        ==> self.comes_to(orig_input, 0, orig_input, first, res, after),
            decreases self.bounds.end - repetitions,
        {
            let ghost reps = repetitions as nat;
            let ghost held = acc;
            if repetitions == self.bounds.end - 1 {
                let out = self.reducer.reduce_operator.finalize(acc, orig_input, *input);
                assert(self.comes_to(orig_input, reps, *input, held, Ok(out), *input));
                return Ok(out);
            }
            let loc_before_iteration = *input;
            match self.parser.fab(input) {
                Ok(val) => {
                    let ghost next = *input;
                    assert(self.parser.outcome(loc_before_iteration, Ok(val), next));
                    if loc(*input) == loc(loc_before_iteration) {
                        let mut err = E::from_parser_error(
                            loc_before_iteration,
                            ParserType::RepeatIter,
                        );
                        let ghost inner = err;
                        *input = orig_input;
                        err.add_context(orig_input, ParserType::Repeat);
                        assert(stalls(
                            orig_input,
                            loc_before_iteration,
                            Err::<AccOut, E>(err),
                            orig_input,
                        )) by {
                            assert(inner.is_parser_error(
                                position(loc_before_iteration),
                                ParserType::RepeatIter,
                            ));
                        }
                        assert(self.comes_to(
                            orig_input,
                            reps,
                            loc_before_iteration,
                            held,
                            Err(err),
                            orig_input,
                        ));
                        return Err(err);
                    }
                    proof {
                        lemma_suffix_of_suffix(
                            next.items(),
                            loc_before_iteration.items(),
                            orig_input.items(),
                        );
                    }
                    let (folded, step) = self.reducer.reduce_operator.try_reduce(acc, val);
                    acc = folded;
                    match step {
                        Ok(done) => {
                            assert(self.reducer.reduce_operator.reduces(held, val, Ok(done), acc));
                            assert forall|res: Result<AccOut, E>, after: &I| #[trigger]
                                self.comes_to(orig_input, reps + 1, next, acc, res, after) implies self.comes_to(
                                orig_input,
                                0,
                                orig_input,
                                first,
                                res,
                                after,
                            ) by {
                                assert(self.comes_to(
                                    orig_input,
                                    reps,
                                    loc_before_iteration,
                                    held,
                                    res,
                                    after,
                                ));
                            }
                        },
                        Err(cause) => {
                            assert(self.reducer.reduce_operator.reduces(
                                held,
                                val,
                                Err(cause),
                                acc,
                            ));
                            let mut err = E::from_external_error(
                                loc_before_iteration,
                                ParserType::RepeatIter,
                                cause,
                            );
                            let ghost inner = err;
                            *input = orig_input;
                            err.add_context(orig_input, ParserType::Repeat);
                            assert(is_refused(
                                orig_input,
                                loc_before_iteration,
                                cause,
                                Err::<AccOut, E>(err),
                                orig_input,
                            )) by {
                                assert(reports_cause(
                                    inner,
                                    position(loc_before_iteration),
                                    ParserType::RepeatIter,
                                    cause,
                                ));
                            }
                            assert(self.comes_to(
                                orig_input,
                                reps,
                                loc_before_iteration,
                                held,
                                Err(err),
                                orig_input,
                            ));
                            return Err(err);
                        },
                    }
                },
                Err(inner) => {
                    assert(self.parser.outcome(
                        loc_before_iteration,
                        Err(inner),
                        loc_before_iteration,
                    ));
                    if self.bounds.start <= repetitions {
                        let out = self.reducer.reduce_operator.finalize(acc, orig_input, *input);
                        assert(self.comes_to(
                            orig_input,
                            reps,
                            loc_before_iteration,
                            held,
                            Ok(out),
                            loc_before_iteration,
                        ));
                        return Ok(out);
                    } else {
                        *input = orig_input;
                        let err = E::from_parser_error(*input, ParserType::Repeat);
                        assert(self.comes_to(
                            orig_input,
                            reps,
                            loc_before_iteration,
                            held,
                            Err(err),
                            orig_input,
                        ));
                        return Err(err);
                    }
                },
            }
            repetitions += 1;
        }
    }
}

/// One end of a range of numbers of repetitions.
#[derive(Debug, Clone, Copy, PartialEq, Eq, Structural)]
pub enum Limit {
    Included(usize),
    Excluded(usize),
    Unbounded,
}

/// What gives the two ends of a range of numbers of repetitions: the
/// ranges of `usize`, and pairs of `Bound`s.
pub trait RepeatBounds {
    /// `start` is the lower end that the range gives.
    spec fn starts_at(&self, start: Limit) -> bool;

    /// `end` is the upper end that the range gives.
    spec fn ends_at(&self, end: Limit) -> bool;

    /// The lower end of the range.
    fn start_limit(&self) -> (start: Limit)
        ensures
            self.starts_at(start),
    ;

    /// The upper end of the range.
    fn end_limit(&self) -> (end: Limit)
        ensures
            self.ends_at(end),
    ;
}

/// The end that a `Bound` is.
pub open spec fn limit_of(bound: Bound<usize>) -> Limit {
    match bound {
        Bound::Included(val) => Limit::Included(val),
        Bound::Excluded(val) => Limit::Excluded(val),
        Bound::Unbounded => Limit::Unbounded,
    }
}

/// The end that a `Bound` is.
pub fn limit_from(bound: &Bound<usize>) -> (limit: Limit)
    ensures
        limit == limit_of(*bound),
{
    match bound {
        Bound::Included(val) => Limit::Included(*val),
        Bound::Excluded(val) => Limit::Excluded(*val),
        Bound::Unbounded => Limit::Unbounded,
    }
}

impl RepeatBounds for (Bound<usize>, Bound<usize>) {
    open spec fn starts_at(&self, start: Limit) -> bool {
        start == limit_of(self.0)
    }

    open spec fn ends_at(&self, end: Limit) -> bool {
        end == limit_of(self.1)
    }

    fn start_limit(&self) -> (start: Limit) {
        limit_from(&self.0)
    }

    fn end_limit(&self) -> (end: Limit) {
        limit_from(&self.1)
    }
}

impl RepeatBounds for Range<usize> {
    open spec fn starts_at(&self, start: Limit) -> bool {
        start == Limit::Included(self.start)
    }

    open spec fn ends_at(&self, end: Limit) -> bool {
        end == Limit::Excluded(self.end)
    }

    fn start_limit(&self) -> (start: Limit) {
        Limit::Included(self.start)
    }

    fn end_limit(&self) -> (end: Limit) {
        Limit::Excluded(self.end)
    }
}

/// Of a range that has been iterated to its end nothing is said.
impl RepeatBounds for RangeInclusive<usize> {
    open spec fn starts_at(&self, start: Limit) -> bool {
        !self@.exhausted ==> start == Limit::Included(self@.start)
    }

    open spec fn ends_at(&self, end: Limit) -> bool {
        !self@.exhausted ==> end == Limit::Included(self@.end)
    }

    fn start_limit(&self) -> (start: Limit) {
        Limit::Included(*self.start())
    }

    fn end_limit(&self) -> (end: Limit) {
        match last_of(self) {
            End::Included(val) => Limit::Included(*val),
            End::Excluded(val) => Limit::Excluded(*val),
            End::Unbounded => Limit::Unbounded,
        }
    }
}

impl RepeatBounds for RangeFrom<usize> {
    open spec fn starts_at(&self, start: Limit) -> bool {
        start == Limit::Included(self.start)
    }

    open spec fn ends_at(&self, end: Limit) -> bool {
        end == Limit::Unbounded
    }

    fn start_limit(&self) -> (start: Limit) {
        Limit::Included(self.start)
    }

    fn end_limit(&self) -> (end: Limit) {
        Limit::Unbounded
    }
}

impl RepeatBounds for RangeTo<usize> {
    open spec fn starts_at(&self, start: Limit) -> bool {
        start == Limit::Unbounded
    }

    open spec fn ends_at(&self, end: Limit) -> bool {
        end == Limit::Excluded(self.end)
    }

    fn start_limit(&self) -> (start: Limit) {
        Limit::Unbounded
    }

    fn end_limit(&self) -> (end: Limit) {
        Limit::Excluded(self.end)
    }
}

impl RepeatBounds for RangeToInclusive<usize> {
    open spec fn starts_at(&self, start: Limit) -> bool {
        start == Limit::Unbounded
    }

    open spec fn ends_at(&self, end: Limit) -> bool {
        end == Limit::Included(self.end)
    }

    fn start_limit(&self) -> (start: Limit) {
        Limit::Unbounded
    }

    fn end_limit(&self) -> (end: Limit) {
        Limit::Included(self.end)
    }
}

impl RepeatBounds for RangeFull {
    open spec fn starts_at(&self, start: Limit) -> bool {
        start == Limit::Unbounded
    }

    open spec fn ends_at(&self, end: Limit) -> bool {
        end == Limit::Unbounded
    }

    fn start_limit(&self) -> (start: Limit) {
        Limit::Unbounded
    }

    fn end_limit(&self) -> (end: Limit) {
        Limit::Unbounded
    }
}

/// The least number that lies above the lower end `start`, if a number
/// does.
pub open spec fn least_above(start: Limit) -> Option<usize> {
    match start {
        Limit::Included(val) => Some(val),
        Limit::Excluded(val) => if val == usize::MAX {
            None
        } else {
            Some((val + 1) as usize)
        },
        Limit::Unbounded => Some(0),
    }
}

/// The first number that lies above the upper end `end`; `usize::MAX`
/// where none does.
pub open spec fn first_beyond(end: Limit) -> usize {
    match end {
        Limit::Included(val) => if val == usize::MAX {
            val
        } else {
            (val + 1) as usize
        },
        Limit::Excluded(val) => val,
        Limit::Unbounded => usize::MAX,
    }
}

/// The half-open range of the numbers between two ends. An upper end that
/// includes `usize::MAX` stops there. A lower end that excludes
/// `usize::MAX` is rejected.
pub fn normalize(start: Limit, end: Limit) -> (range: Option<Range<usize>>)
    ensures
        match range {
            Some(range) => least_above(start) == Some(range.start) && range.end == first_beyond(
                end,
            ),
            None => start == Limit::Excluded(usize::MAX),
        },
{
    let lower = match start {
        Limit::Included(val) => val,
        Limit::Excluded(val) => {
            if val == usize::MAX {
                return None;
            } else {
                val + 1
            }
        },
        Limit::Unbounded => 0,
    };
    let upper = match end {
        Limit::Included(val) => {
            if val == usize::MAX {
                val
            } else {
                val + 1
            }
        },
        Limit::Excluded(val) => val,
        Limit::Unbounded => usize::MAX,
    };
    Some(lower..upper)
}

impl<P, ParI: ?Sized, ParO, ParE, F, Acc: Clone> Repeat<P, ParI, ParO, ParE, F, Acc> {
    /// Sets the least number of repetitions with which the parser
    /// succeeds.
    pub fn min(self, min: usize) -> (repeat: Self)
        ensures
            repeat.inner() == self.inner(),
            repeat.fold() == self.fold(),
            repeat.lower() == min,
            repeat.upper() == self.upper(),
    {
        Repeat::new(self.parser, self.reducer, min..self.bounds.end)
    }

    /// Sets the number of repetitions that the parser no longer makes:
    /// with one less than `max` made it stops and succeeds.
    pub fn max(self, max: usize) -> (repeat: Self)
        ensures
            repeat.inner() == self.inner(),
            repeat.fold() == self.fold(),
            repeat.lower() == self.lower(),
            repeat.upper() == max,
    {
        Repeat::new(self.parser, self.reducer, self.bounds.start..max)
    }

    /// `repeat` is what becomes of the repetition when its two ends are set
    /// to `start` and `end`: the same parser and fold with the least number
    /// above `start` as the least number of repetitions and the first
    /// number beyond `end` as the number that is no longer made; nothing
    /// where no number lies above `start`.
    pub open spec fn limited(self, start: Limit, end: Limit, repeat: Option<Self>) -> bool {
        match repeat {
            Some(repeat) => {
                &&& repeat.inner() == self.inner()
                &&& repeat.fold() == self.fold()
                &&& least_above(start) == Some(repeat.lower())
                &&& repeat.upper() == first_beyond(end)
            },
            None => start == Limit::Excluded(usize::MAX),
        }
    }

    /// Sets both ends to those of `range`, as [`normalize`] reads the two
    /// ends that are given here. `None` where it rejects them.
    pub fn with_limits(self, start: Limit, end: Limit) -> (repeat: Option<Self>)
        ensures
            self.limited(start, end, repeat),
    {
        match normalize(start, end) {
            Some(range) => Some(Repeat::new(self.parser, self.reducer, range)),
            None => None,
        }
    }

    /// Sets both the least number of repetitions and the number that is no
    /// longer made, from any range: the repetition is [`Repeat::limited`]
    /// by the two ends that the range gives. `None` where the range starts
    /// above `usize::MAX`.
    pub fn bound<B: RepeatBounds>(self, bounds: B) -> (repeat: Option<Self>)
        ensures
            exists|start: Limit, end: Limit|
                {
                    &&& #[trigger] bounds.starts_at(start)
                    &&& #[trigger] bounds.ends_at(end)
                    &&& self.limited(start, end, repeat)
                },
    {
        let start = bounds.start_limit();
        let end = bounds.end_limit();
        self.with_limits(start, end)
    }

    /// Returns the part of the input that the repetition has read in place
    /// of what was folded.
    pub fn as_input_slice(self) -> (repeat: Repeat<P, ParI, ParO, ParE, InputSliceReducer, ()>)
        ensures
            repeat.inner() == self.inner(),
            repeat.lower() == self.lower(),
            repeat.upper() == self.upper(),
    {
        Repeat::new(self.parser, Reducer { acc: (), reduce_operator: InputSliceReducer }, self.bounds)
    }

    /// Replaces the fold: `acc` is what it starts from, and `reduce_fn`
    /// folds each value into it. `reduce_fn` is a function from the
    /// accumulator and a value to nothing, to a `bool`, to an `Option` or
    /// to a `Result`, or any other [`TryReducer`].
    pub fn reduce<NewAcc: Clone, NewF>(self, acc: NewAcc, reduce_fn: NewF) -> (repeat: Repeat<
        P,
        ParI,
        ParO,
        ParE,
        NewF,
        NewAcc,
    >)
        ensures
            repeat.inner() == self.inner(),
            repeat.fold() == (Reducer { acc, reduce_operator: reduce_fn }),
            repeat.lower() == self.lower(),
            repeat.upper() == self.upper(),
    {
        Repeat::new(self.parser, Reducer { acc, reduce_operator: reduce_fn }, self.bounds)
    }
}

} // verus!
