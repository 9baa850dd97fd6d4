//! Tuples of parsers: the parsers of a tuple in turn.

use crate::error::ParserError;
use crate::sequence::{lemma_suffix_of_self, lemma_suffix_of_suffix, Sequence};
use crate::Parser;
use std::marker::PhantomData;
use vstd::prelude::*;

verus! {

/// Marks the parser that a tuple of one parser is.
pub struct Seq1<T1> {
    p1: PhantomData<T1>,
}

/// A tuple of one parser is a parser: it runs the parser.
impl<'a, I: ?Sized + Sequence, E: ParserError, O1, P1, T1> Parser<
    'a,
    I,
    (O1,),
    E,
    Seq1<T1>,
> for (P1,) where
    P1: Parser<'a, I, O1, E, T1>,
 {
    open spec fn ready(&self) -> bool {
        &&& self.0.ready()
    }

    open spec fn outcome(&self, before: &I, res: Result<(O1,), E>, after: &I) -> bool {
        match res {
            Ok(outs) => exists|o1: O1|
                    #[trigger] self.0.outcome(before, Ok(o1), after)
                    && outs.0 == o1,
            Err(err) => {
                &&& after == before
                &&& self.0.outcome(before, Err(err), before)
            },
        }
    }

    fn fab(&self, input: &mut &'a I) -> (res: Result<(O1,), E>) {
        let startloc = *input;
        let ghost c0 = *input;
        proof {
            lemma_suffix_of_self(c0.items());
        }
        let r1 = match self.0.fab(input) {
            Ok(out) => out,
            Err(err) => {
                assert(self.0.outcome(c0, Err(err), c0));
                *input = startloc;
                return Err(err);
            },
        };
        let ghost c1 = *input;
        proof {
            assert(self.0.outcome(c0, Ok(r1), c1));
            lemma_suffix_of_suffix(c1.items(), c0.items(), startloc.items());
        }
        Ok((r1,))
    }
}

/// Marks the parser that a tuple of two parsers is.
pub struct Seq2<T1, T2> {
    p1: PhantomData<T1>,
    p2: PhantomData<T2>,
}

/// A tuple of two parsers is a parser: it runs them in turn.
impl<'a, I: ?Sized + Sequence, E: ParserError, O1, P1, T1, O2, P2, T2> Parser<
    'a,
    I,
    (O1, O2),
    E,
    Seq2<T1, T2>,
> for (P1, P2) where
    P1: Parser<'a, I, O1, E, T1>,
    P2: Parser<'a, I, O2, E, T2>,
 {
    open spec fn ready(&self) -> bool {
        &&& self.0.ready()
        &&& self.1.ready()
    }

    open spec fn outcome(&self, before: &I, res: Result<(O1, O2), E>, after: &I) -> bool {
        match res {
            Ok(outs) => exists|o1: O1, c1: &I|
                    #[trigger] self.0.outcome(before, Ok(o1), c1)
                    && outs.0 == o1
                    && exists|o2: O2|
                    #[trigger] self.1.outcome(c1, Ok(o2), after)
                    && outs.1 == o2,
            Err(err) => {
                &&& after == before
                &&& (self.0.outcome(before, Err(err), before)
                    || exists|o1: O1, c1: &I|
                    #[trigger] self.0.outcome(before, Ok(o1), c1)
                    && self.1.outcome(c1, Err(err), c1))
            },
        }
    }

    fn fab(&self, input: &mut &'a I) -> (res: Result<(O1, O2), E>) {
        let startloc = *input;
        let ghost c0 = *input;
        proof {
            lemma_suffix_of_self(c0.items());
        }
        let r1 = match self.0.fab(input) {
            Ok(out) => out,
            Err(err) => {
                assert(self.0.outcome(c0, Err(err), c0));
                *input = startloc;
                return Err(err);
            },
        };
        let ghost c1 = *input;
        proof {
            assert(self.0.outcome(c0, Ok(r1), c1));
            lemma_suffix_of_suffix(c1.items(), c0.items(), startloc.items());
        }
        let r2 = match self.1.fab(input) {
            Ok(out) => out,
            Err(err) => {
                assert(self.1.outcome(c1, Err(err), c1));
                *input = startloc;
                return Err(err);
            },
        };
        let ghost c2 = *input;
        proof {
            assert(self.1.outcome(c1, Ok(r2), c2));
            lemma_suffix_of_suffix(c2.items(), c1.items(), startloc.items());
        }
        Ok((r1, r2))
    }
}

/// Marks the parser that a tuple of three parsers is.
pub struct Seq3<T1, T2, T3> {
    p1: PhantomData<T1>,
    p2: PhantomData<T2>,
    p3: PhantomData<T3>,
}

/// A tuple of three parsers is a parser: it runs them in turn.
impl<'a, I: ?Sized + Sequence, E: ParserError, O1, P1, T1, O2, P2, T2, O3, P3, T3> Parser<
    'a,
    I,
    (O1, O2, O3),
    E,
    Seq3<T1, T2, T3>,
> for (P1, P2, P3) where
    P1: Parser<'a, I, O1, E, T1>,
    P2: Parser<'a, I, O2, E, T2>,
    P3: Parser<'a, I, O3, E, T3>,
 {
    open spec fn ready(&self) -> bool {
        &&& self.0.ready()
        &&& self.1.ready()
        &&& self.2.ready()
    }

    open spec fn outcome(&self, before: &I, res: Result<(O1, O2, O3), E>, after: &I) -> bool {
        match res {
            Ok(outs) => exists|o1: O1, c1: &I|
                    #[trigger] self.0.outcome(before, Ok(o1), c1)
                    && outs.0 == o1
                    && exists|o2: O2, c2: &I|
                    #[trigger] self.1.outcome(c1, Ok(o2), c2)
                    && outs.1 == o2
                    && exists|o3: O3|
                    #[trigger] self.2.outcome(c2, Ok(o3), after)
                    && outs.2 == o3,
            Err(err) => {
                &&& after == before
                &&& (self.0.outcome(before, Err(err), before)
                    || exists|o1: O1, c1: &I|
                    #[trigger] self.0.outcome(before, Ok(o1), c1)
                    && (self.1.outcome(c1, Err(err), c1)
                    || exists|o2: O2, c2: &I|
                    #[trigger] self.1.outcome(c1, Ok(o2), c2)
                    && self.2.outcome(c2, Err(err), c2)))
            },
        }
    }

    fn fab(&self, input: &mut &'a I) -> (res: Result<(O1, O2, O3), E>) {
        let startloc = *input;
        let ghost c0 = *input;
        proof {
            lemma_suffix_of_self(c0.items());
        }
        let r1 = match self.0.fab(input) {
            Ok(out) => out,
            Err(err) => {
                assert(self.0.outcome(c0, Err(err), c0));
                *input = startloc;
                return Err(err);
            },
        };
        let ghost c1 = *input;
        proof {
            assert(self.0.outcome(c0, Ok(r1), c1));
            lemma_suffix_of_suffix(c1.items(), c0.items(), startloc.items());
        }
        let r2 = match self.1.fab(input) {
            Ok(out) => out,
            Err(err) => {
                assert(self.1.outcome(c1, Err(err), c1));
                *input = startloc;
                return Err(err);
            },
        };
        let ghost c2 = *input;
        proof {
            assert(self.1.outcome(c1, Ok(r2), c2));
            lemma_suffix_of_suffix(c2.items(), c1.items(), startloc.items());
        }
        let r3 = match self.2.fab(input) {
            Ok(out) => out,
            Err(err) => {
                assert(self.2.outcome(c2, Err(err), c2));
                *input = startloc;
                return Err(err);
            },
        };
        let ghost c3 = *input;
        proof {
            assert(self.2.outcome(c2, Ok(r3), c3));
            lemma_suffix_of_suffix(c3.items(), c2.items(), startloc.items());
        }
        Ok((r1, r2, r3))
    }
}

/// Marks the parser that a tuple of four parsers is.
pub struct Seq4<T1, T2, T3, T4> {
    p1: PhantomData<T1>,
    p2: PhantomData<T2>,
    p3: PhantomData<T3>,
    p4: PhantomData<T4>,
}

/// A tuple of four parsers is a parser: it runs them in turn.
impl<'a, I: ?Sized + Sequence, E: ParserError, O1, P1, T1, O2, P2, T2, O3, P3, T3, O4, P4,
    T4> Parser<
    'a,
    I,
    (O1, O2, O3, O4),
    E,
    Seq4<T1, T2, T3, T4>,
> for (P1, P2, P3, P4) where
    P1: Parser<'a, I, O1, E, T1>,
    P2: Parser<'a, I, O2, E, T2>,
    P3: Parser<'a, I, O3, E, T3>,
    P4: Parser<'a, I, O4, E, T4>,
 {
    open spec fn ready(&self) -> bool {
        &&& self.0.ready()
        &&& self.1.ready()
        &&& self.2.ready()
        &&& self.3.ready()
    }

    open spec fn outcome(&self, before: &I, res: Result<(O1, O2, O3, O4), E>, after: &I) -> bool {
        match res {
            Ok(outs) => exists|o1: O1, c1: &I|
                    #[trigger] self.0.outcome(before, Ok(o1), c1)
                    && outs.0 == o1
                    && exists|o2: O2, c2: &I|
                    #[trigger] self.1.outcome(c1, Ok(o2), c2)
                    && outs.1 == o2
                    && exists|o3: O3, c3: &I|
                    #[trigger] self.2.outcome(c2, Ok(o3), c3)
                    && outs.2 == o3
                    && exists|o4: O4|
                    #[trigger] self.3.outcome(c3, Ok(o4), after)
                    && outs.3 == o4,
            Err(err) => {
                &&& after == before
                &&& (self.0.outcome(before, Err(err), before)
                    || exists|o1: O1, c1: &I|
                    #[trigger] self.0.outcome(before, Ok(o1), c1)
                    && (self.1.outcome(c1, Err(err), c1)
                    || exists|o2: O2, c2: &I|
                    #[trigger] self.1.outcome(c1, Ok(o2), c2)
                    && (self.2.outcome(c2, Err(err), c2)
                    || exists|o3: O3, c3: &I|
                    #[trigger] self.2.outcome(c2, Ok(o3), c3)
                    && self.3.outcome(c3, Err(err), c3))))
            },
        }
    }

    fn fab(&self, input: &mut &'a I) -> (res: Result<(O1, O2, O3, O4), E>) {
        let startloc = *input;
        let ghost c0 = *input;
        proof {
            lemma_suffix_of_self(c0.items());
        }
        let r1 = match self.0.fab(input) {
            Ok(out) => out,
            Err(err) => {
                assert(self.0.outcome(c0, Err(err), c0));
                *input = startloc;
                return Err(err);
            },
        };
        let ghost c1 = *input;
        proof {
            assert(self.0.outcome(c0, Ok(r1), c1));
            lemma_suffix_of_suffix(c1.items(), c0.items(), startloc.items());
        }
        let r2 = match self.1.fab(input) {
            Ok(out) => out,
            Err(err) => {
                assert(self.1.outcome(c1, Err(err), c1));
                *input = startloc;
                return Err(err);
            },
        };
        let ghost c2 = *input;
        proof {
            assert(self.1.outcome(c1, Ok(r2), c2));
            lemma_suffix_of_suffix(c2.items(), c1.items(), startloc.items());
        }
        let r3 = match self.2.fab(input) {
            Ok(out) => out,
            Err(err) => {
                assert(self.2.outcome(c2, Err(err), c2));
                *input = startloc;
                return Err(err);
            },
        };
        let ghost c3 = *input;
        proof {
            assert(self.2.outcome(c2, Ok(r3), c3));
            lemma_suffix_of_suffix(c3.items(), c2.items(), startloc.items());
        }
        let r4 = match self.3.fab(input) {
            Ok(out) => out,
            Err(err) => {
                assert(self.3.outcome(c3, Err(err), c3));
                *input = startloc;
                return Err(err);
            },
        };
        let ghost c4 = *input;
        proof {
            assert(self.3.outcome(c3, Ok(r4), c4));
            lemma_suffix_of_suffix(c4.items(), c3.items(), startloc.items());
        }
        Ok((r1, r2, r3, r4))
    }
}

/// Marks the parser that a tuple of five parsers is.
pub struct Seq5<T1, T2, T3, T4, T5> {
    p1: PhantomData<T1>,
    p2: PhantomData<T2>,
    p3: PhantomData<T3>,
    p4: PhantomData<T4>,
    p5: PhantomData<T5>,
}

/// A tuple of five parsers is a parser: it runs them in turn.
impl<'a, I: ?Sized + Sequence, E: ParserError, O1, P1, T1, O2, P2, T2, O3, P3, T3, O4, P4, T4, O5,
    P5, T5> Parser<
    'a,
    I,
    (O1, O2, O3, O4, O5),
    E,
    Seq5<T1, T2, T3, T4, T5>,
> for (P1, P2, P3, P4, P5) where
    P1: Parser<'a, I, O1, E, T1>,
    P2: Parser<'a, I, O2, E, T2>,
    P3: Parser<'a, I, O3, E, T3>,
    P4: Parser<'a, I, O4, E, T4>,
    P5: Parser<'a, I, O5, E, T5>,
 {
    open spec fn ready(&self) -> bool {
        &&& self.0.ready()
        &&& self.1.ready()
        &&& self.2.ready()
        &&& self.3.ready()
        &&& self.4.ready()
    }

    open spec fn outcome(&self, before: &I, res: Result<(O1, O2, O3, O4, O5), E>,
        after: &I) -> bool {
        match res {
            Ok(outs) => exists|o1: O1, c1: &I|
                    #[trigger] self.0.outcome(before, Ok(o1), c1)
                    && outs.0 == o1
                    && exists|o2: O2, c2: &I|
                    #[trigger] self.1.outcome(c1, Ok(o2), c2)
                    && outs.1 == o2
                    && exists|o3: O3, c3: &I|
                    #[trigger] self.2.outcome(c2, Ok(o3), c3)
                    && outs.2 == o3
                    && exists|o4: O4, c4: &I|
                    #[trigger] self.3.outcome(c3, Ok(o4), c4)
                    && outs.3 == o4
                    && exists|o5: O5|
                    #[trigger] self.4.outcome(c4, Ok(o5), after)
                    && outs.4 == o5,
            Err(err) => {
                &&& after == before
                &&& (self.0.outcome(before, Err(err), before)
                    || exists|o1: O1, c1: &I|
                    #[trigger] self.0.outcome(before, Ok(o1), c1)
                    && (self.1.outcome(c1, Err(err), c1)
                    || exists|o2: O2, c2: &I|
                    #[trigger] self.1.outcome(c1, Ok(o2), c2)
                    && (self.2.outcome(c2, Err(err), c2)
                    || exists|o3: O3, c3: &I|
                    #[trigger] self.2.outcome(c2, Ok(o3), c3)
                    && (self.3.outcome(c3, Err(err), c3)
                    || exists|o4: O4, c4: &I|
                    #[trigger] self.3.outcome(c3, Ok(o4), c4)
                    && self.4.outcome(c4, Err(err), c4)))))
            },
        }
    }

    fn fab(&self, input: &mut &'a I) -> (res: Result<(O1, O2, O3, O4, O5), E>) {
        let startloc = *input;
        let ghost c0 = *input;
        proof {
            lemma_suffix_of_self(c0.items());
        }
        let r1 = match self.0.fab(input) {
            Ok(out) => out,
            Err(err) => {
                assert(self.0.outcome(c0, Err(err), c0));
                *input = startloc;
                return Err(err);
            },
        };
        let ghost c1 = *input;
        proof {
            assert(self.0.outcome(c0, Ok(r1), c1));
            lemma_suffix_of_suffix(c1.items(), c0.items(), startloc.items());
        }
        let r2 = match self.1.fab(input) {
            Ok(out) => out,
            Err(err) => {
                assert(self.1.outcome(c1, Err(err), c1));
                *input = startloc;
                return Err(err);
            },
        };
        let ghost c2 = *input;
        proof {
            assert(self.1.outcome(c1, Ok(r2), c2));
            lemma_suffix_of_suffix(c2.items(), c1.items(), startloc.items());
        }
        let r3 = match self.2.fab(input) {
            Ok(out) => out,
            Err(err) => {
                assert(self.2.outcome(c2, Err(err), c2));
                *input = startloc;
                return Err(err);
            },
        };
        let ghost c3 = *input;
        proof {
            assert(self.2.outcome(c2, Ok(r3), c3));
            lemma_suffix_of_suffix(c3.items(), c2.items(), startloc.items());
        }
        let r4 = match self.3.fab(input) {
            Ok(out) => out,
            Err(err) => {
                assert(self.3.outcome(c3, Err(err), c3));
                *input = startloc;
                return Err(err);
            },
        };
        let ghost c4 = *input;
        proof {
            assert(self.3.outcome(c3, Ok(r4), c4));
            lemma_suffix_of_suffix(c4.items(), c3.items(), startloc.items());
        }
        let r5 = match self.4.fab(input) {
            Ok(out) => out,
            Err(err) => {
                assert(self.4.outcome(c4, Err(err), c4));
                *input = startloc;
                return Err(err);
            },
        };
        let ghost c5 = *input;
        proof {
            assert(self.4.outcome(c4, Ok(r5), c5));
            lemma_suffix_of_suffix(c5.items(), c4.items(), startloc.items());
        }
        Ok((r1, r2, r3, r4, r5))
    }
}

/// Marks the parser that a tuple of six parsers is.
pub struct Seq6<T1, T2, T3, T4, T5, T6> {
    p1: PhantomData<T1>,
    p2: PhantomData<T2>,
    p3: PhantomData<T3>,
    p4: PhantomData<T4>,
    p5: PhantomData<T5>,
    p6: PhantomData<T6>,
}

/// A tuple of six parsers is a parser: it runs them in turn.
impl<'a, I: ?Sized + Sequence, E: ParserError, O1, P1, T1, O2, P2, T2, O3, P3, T3, O4, P4, T4, O5,
    P5, T5, O6, P6, T6> Parser<
    'a,
    I,
    (O1, O2, O3, O4, O5, O6),
    E,
    Seq6<T1, T2, T3, T4, T5, T6>,
> for (P1, P2, P3, P4, P5, P6) where
    P1: Parser<'a, I, O1, E, T1>,
    P2: Parser<'a, I, O2, E, T2>,
    P3: Parser<'a, I, O3, E, T3>,
    P4: Parser<'a, I, O4, E, T4>,
    P5: Parser<'a, I, O5, E, T5>,
    P6: Parser<'a, I, O6, E, T6>,
 {
    open spec fn ready(&self) -> bool {
        &&& self.0.ready()
        &&& self.1.ready()
        &&& self.2.ready()
        &&& self.3.ready()
        &&& self.4.ready()
        &&& self.5.ready()
    }

    open spec fn outcome(&self, before: &I, res: Result<(O1, O2, O3, O4, O5, O6), E>,
        after: &I) -> bool {
        match res {
            Ok(outs) => exists|o1: O1, c1: &I|
                    #[trigger] self.0.outcome(before, Ok(o1), c1)
                    && outs.0 == o1
                    && exists|o2: O2, c2: &I|
                    #[trigger] self.1.outcome(c1, Ok(o2), c2)
                    && outs.1 == o2
                    && exists|o3: O3, c3: &I|
                    #[trigger] self.2.outcome(c2, Ok(o3), c3)
                    && outs.2 == o3
                    && exists|o4: O4, c4: &I|
                    #[trigger] self.3.outcome(c3, Ok(o4), c4)
                    && outs.3 == o4
                    && exists|o5: O5, c5: &I|
                    #[trigger] self.4.outcome(c4, Ok(o5), c5)
                    && outs.4 == o5
                    && exists|o6: O6|
                    #[trigger] self.5.outcome(c5, Ok(o6), after)
                    && outs.5 == o6,
            Err(err) => {
                &&& after == before
                &&& (self.0.outcome(before, Err(err), before)
                    || exists|o1: O1, c1: &I|
                    #[trigger] self.0.outcome(before, Ok(o1), c1)
                    && (self.1.outcome(c1, Err(err), c1)
                    || exists|o2: O2, c2: &I|
                    #[trigger] self.1.outcome(c1, Ok(o2), c2)
                    && (self.2.outcome(c2, Err(err), c2)
                    || exists|o3: O3, c3: &I|
                    #[trigger] self.2.outcome(c2, Ok(o3), c3)
                    && (self.3.outcome(c3, Err(err), c3)
                    || exists|o4: O4, c4: &I|
                    #[trigger] self.3.outcome(c3, Ok(o4), c4)
                    && (self.4.outcome(c4, Err(err), c4)
                    || exists|o5: O5, c5: &I|
                    #[trigger] self.4.outcome(c4, Ok(o5), c5)
                    && self.5.outcome(c5, Err(err), c5))))))
            },
        }
    }

    fn fab(&self, input: &mut &'a I) -> (res: Result<(O1, O2, O3, O4, O5, O6), E>) {
        let startloc = *input;
        let ghost c0 = *input;
        proof {
            lemma_suffix_of_self(c0.items());
        }
        let r1 = match self.0.fab(input) {
            Ok(out) => out,
            Err(err) => {
                assert(self.0.outcome(c0, Err(err), c0));
                *input = startloc;
                return Err(err);
            },
        };
        let ghost c1 = *input;
        proof {
            assert(self.0.outcome(c0, Ok(r1), c1));
            lemma_suffix_of_suffix(c1.items(), c0.items(), startloc.items());
        }
        let r2 = match self.1.fab(input) {
            Ok(out) => out,
            Err(err) => {
                assert(self.1.outcome(c1, Err(err), c1));
                *input = startloc;
                return Err(err);
            },
        };
        let ghost c2 = *input;
        proof {
            assert(self.1.outcome(c1, Ok(r2), c2));
            lemma_suffix_of_suffix(c2.items(), c1.items(), startloc.items());
        }
        let r3 = match self.2.fab(input) {
            Ok(out) => out,
            Err(err) => {
                assert(self.2.outcome(c2, Err(err), c2));
                *input = startloc;
                return Err(err);
            },
        };
        let ghost c3 = *input;
        proof {
            assert(self.2.outcome(c2, Ok(r3), c3));
            lemma_suffix_of_suffix(c3.items(), c2.items(), startloc.items());
        }
        let r4 = match self.3.fab(input) {
            Ok(out) => out,
            Err(err) => {
                assert(self.3.outcome(c3, Err(err), c3));
                *input = startloc;
                return Err(err);
            },
        };
        let ghost c4 = *input;
        proof {
            assert(self.3.outcome(c3, Ok(r4), c4));
            lemma_suffix_of_suffix(c4.items(), c3.items(), startloc.items());
        }
        let r5 = match self.4.fab(input) {
            Ok(out) => out,
            Err(err) => {
                assert(self.4.outcome(c4, Err(err), c4));
                *input = startloc;
                return Err(err);
            },
        };
        let ghost c5 = *input;
        proof {
            assert(self.4.outcome(c4, Ok(r5), c5));
            lemma_suffix_of_suffix(c5.items(), c4.items(), startloc.items());
        }
        let r6 = match self.5.fab(input) {
            Ok(out) => out,
            Err(err) => {
                assert(self.5.outcome(c5, Err(err), c5));
                *input = startloc;
                return Err(err);
            },
        };
        let ghost c6 = *input;
        proof {
            assert(self.5.outcome(c5, Ok(r6), c6));
            lemma_suffix_of_suffix(c6.items(), c5.items(), startloc.items());
        }
        Ok((r1, r2, r3, r4, r5, r6))
    }
}

/// Marks the parser that a tuple of seven parsers is.
pub struct Seq7<T1, T2, T3, T4, T5, T6, T7> {
    p1: PhantomData<T1>,
    p2: PhantomData<T2>,
    p3: PhantomData<T3>,
    p4: PhantomData<T4>,
    p5: PhantomData<T5>,
    p6: PhantomData<T6>,
    p7: PhantomData<T7>,
}

/// A tuple of seven parsers is a parser: it runs them in turn.
impl<'a, I: ?Sized + Sequence, E: ParserError, O1, P1, T1, O2, P2, T2, O3, P3, T3, O4, P4, T4, O5,
    P5, T5, O6, P6, T6, O7, P7, T7> Parser<
    'a,
    I,
    (O1, O2, O3, O4, O5, O6, O7),
    E,
    Seq7<T1, T2, T3, T4, T5, T6, T7>,
> for (P1, P2, P3, P4, P5, P6, P7) where
    P1: Parser<'a, I, O1, E, T1>,
    P2: Parser<'a, I, O2, E, T2>,
    P3: Parser<'a, I, O3, E, T3>,
    P4: Parser<'a, I, O4, E, T4>,
    P5: Parser<'a, I, O5, E, T5>,
    P6: Parser<'a, I, O6, E, T6>,
    P7: Parser<'a, I, O7, E, T7>,
 {
    open spec fn ready(&self) -> bool {
        &&& self.0.ready()
        &&& self.1.ready()
        &&& self.2.ready()
        &&& self.3.ready()
        &&& self.4.ready()
        &&& self.5.ready()
        &&& self.6.ready()
    }

    open spec fn outcome(&self, before: &I, res: Result<(O1, O2, O3, O4, O5, O6, O7), E>,
        after: &I) -> bool {
        match res {
            Ok(outs) => exists|o1: O1, c1: &I|
                    #[trigger] self.0.outcome(before, Ok(o1), c1)
                    && outs.0 == o1
                    && exists|o2: O2, c2: &I|
                    #[trigger] self.1.outcome(c1, Ok(o2), c2)
                    && outs.1 == o2
                    && exists|o3: O3, c3: &I|
                    #[trigger] self.2.outcome(c2, Ok(o3), c3)
                    && outs.2 == o3
                    && exists|o4: O4, c4: &I|
                    #[trigger] self.3.outcome(c3, Ok(o4), c4)
                    && outs.3 == o4
                    && exists|o5: O5, c5: &I|
                    #[trigger] self.4.outcome(c4, Ok(o5), c5)
                    && outs.4 == o5
                    && exists|o6: O6, c6: &I|
                    #[trigger] self.5.outcome(c5, Ok(o6), c6)
                    && outs.5 == o6
                    && exists|o7: O7|
                    #[trigger] self.6.outcome(c6, Ok(o7), after)
                    && outs.6 == o7,
            Err(err) => {
                &&& after == before
                &&& (self.0.outcome(before, Err(err), before)
                    || exists|o1: O1, c1: &I|
                    #[trigger] self.0.outcome(before, Ok(o1), c1)
                    && (self.1.outcome(c1, Err(err), c1)
                    || exists|o2: O2, c2: &I|
                    #[trigger] self.1.outcome(c1, Ok(o2), c2)
                    && (self.2.outcome(c2, Err(err), c2)
                    || exists|o3: O3, c3: &I|
                    #[trigger] self.2.outcome(c2, Ok(o3), c3)
                    && (self.3.outcome(c3, Err(err), c3)
                    || exists|o4: O4, c4: &I|
                    #[trigger] self.3.outcome(c3, Ok(o4), c4)
                    && (self.4.outcome(c4, Err(err), c4)
                    || exists|o5: O5, c5: &I|
                    #[trigger] self.4.outcome(c4, Ok(o5), c5)
                    && (self.5.outcome(c5, Err(err), c5)
                    || exists|o6: O6, c6: &I|
                    #[trigger] self.5.outcome(c5, Ok(o6), c6)
                    && self.6.outcome(c6, Err(err), c6)))))))
            },
        }
    }

    fn fab(&self, input: &mut &'a I) -> (res: Result<(O1, O2, O3, O4, O5, O6, O7), E>) {
        let startloc = *input;
        let ghost c0 = *input;
        proof {
            lemma_suffix_of_self(c0.items());
        }
        let r1 = match self.0.fab(input) {
            Ok(out) => out,
            Err(err) => {
                assert(self.0.outcome(c0, Err(err), c0));
                *input = startloc;
                return Err(err);
            },
        };
        let ghost c1 = *input;
        proof {
            assert(self.0.outcome(c0, Ok(r1), c1));
            lemma_suffix_of_suffix(c1.items(), c0.items(), startloc.items());
        }
        let r2 = match self.1.fab(input) {
            Ok(out) => out,
            Err(err) => {
                assert(self.1.outcome(c1, Err(err), c1));
                *input = startloc;
                return Err(err);
            },
        };
        let ghost c2 = *input;
        proof {
            assert(self.1.outcome(c1, Ok(r2), c2));
            lemma_suffix_of_suffix(c2.items(), c1.items(), startloc.items());
        }
        let r3 = match self.2.fab(input) {
            Ok(out) => out,
            Err(err) => {
                assert(self.2.outcome(c2, Err(err), c2));
                *input = startloc;
                return Err(err);
            },
        };
        let ghost c3 = *input;
        proof {
            assert(self.2.outcome(c2, Ok(r3), c3));
            lemma_suffix_of_suffix(c3.items(), c2.items(), startloc.items());
        }
        let r4 = match self.3.fab(input) {
            Ok(out) => out,
            Err(err) => {
                assert(self.3.outcome(c3, Err(err), c3));
                *input = startloc;
                return Err(err);
            },
        };
        let ghost c4 = *input;
        proof {
            assert(self.3.outcome(c3, Ok(r4), c4));
            lemma_suffix_of_suffix(c4.items(), c3.items(), startloc.items());
        }
        let r5 = match self.4.fab(input) {
            Ok(out) => out,
            Err(err) => {
                assert(self.4.outcome(c4, Err(err), c4));
                *input = startloc;
                return Err(err);
            },
        };
        let ghost c5 = *input;
        proof {
            assert(self.4.outcome(c4, Ok(r5), c5));
            lemma_suffix_of_suffix(c5.items(), c4.items(), startloc.items());
        }
        let r6 = match self.5.fab(input) {
            Ok(out) => out,
            Err(err) => {
                assert(self.5.outcome(c5, Err(err), c5));
                *input = startloc;
                return Err(err);
            },
        };
        let ghost c6 = *input;
        proof {
            assert(self.5.outcome(c5, Ok(r6), c6));
            lemma_suffix_of_suffix(c6.items(), c5.items(), startloc.items());
        }
        let r7 = match self.6.fab(input) {
            Ok(out) => out,
            Err(err) => {
                assert(self.6.outcome(c6, Err(err), c6));
                *input = startloc;
                return Err(err);
            },
        };
        let ghost c7 = *input;
        proof {
            assert(self.6.outcome(c6, Ok(r7), c7));
            lemma_suffix_of_suffix(c7.items(), c6.items(), startloc.items());
        }
        Ok((r1, r2, r3, r4, r5, r6, r7))
    }
}

/// Marks the parser that a tuple of eight parsers is.
pub struct Seq8<T1, T2, T3, T4, T5, T6, T7, T8> {
    p1: PhantomData<T1>,
    p2: PhantomData<T2>,
    p3: PhantomData<T3>,
    p4: PhantomData<T4>,
    p5: PhantomData<T5>,
    p6: PhantomData<T6>,
    p7: PhantomData<T7>,
    p8: PhantomData<T8>,
}

/// A tuple of eight parsers is a parser: it runs them in turn.
impl<'a, I: ?Sized + Sequence, E: ParserError, O1, P1, T1, O2, P2, T2, O3, P3, T3, O4, P4, T4, O5,
    P5, T5, O6, P6, T6, O7, P7, T7, O8, P8, T8> Parser<
    'a,
    I,
    (O1, O2, O3, O4, O5, O6, O7, O8),
    E,
    Seq8<T1, T2, T3, T4, T5, T6, T7, T8>,
> for (P1, P2, P3, P4, P5, P6, P7, P8) where
    P1: Parser<'a, I, O1, E, T1>,
    P2: Parser<'a, I, O2, E, T2>,
    P3: Parser<'a, I, O3, E, T3>,
    P4: Parser<'a, I, O4, E, T4>,
    P5: Parser<'a, I, O5, E, T5>,
    P6: Parser<'a, I, O6, E, T6>,
    P7: Parser<'a, I, O7, E, T7>,
    P8: Parser<'a, I, O8, E, T8>,
 {
    open spec fn ready(&self) -> bool {
        &&& self.0.ready()
        &&& self.1.ready()
        &&& self.2.ready()
        &&& self.3.ready()
        &&& self.4.ready()
        &&& self.5.ready()
        &&& self.6.ready()
        &&& self.7.ready()
    }

    open spec fn outcome(&self, before: &I, res: Result<(O1, O2, O3, O4, O5, O6, O7, O8), E>,
        after: &I) -> bool {
        match res {
            Ok(outs) => exists|o1: O1, c1: &I|
                    #[trigger] self.0.outcome(before, Ok(o1), c1)
                    && outs.0 == o1
                    && exists|o2: O2, c2: &I|
                    #[trigger] self.1.outcome(c1, Ok(o2), c2)
                    && outs.1 == o2
                    && exists|o3: O3, c3: &I|
                    #[trigger] self.2.outcome(c2, Ok(o3), c3)
                    && outs.2 == o3
                    && exists|o4: O4, c4: &I|
                    #[trigger] self.3.outcome(c3, Ok(o4), c4)
                    && outs.3 == o4
                    && exists|o5: O5, c5: &I|
                    #[trigger] self.4.outcome(c4, Ok(o5), c5)
                    && outs.4 == o5
                    && exists|o6: O6, c6: &I|
                    #[trigger] self.5.outcome(c5, Ok(o6), c6)
                    && outs.5 == o6
                    && exists|o7: O7, c7: &I|
                    #[trigger] self.6.outcome(c6, Ok(o7), c7)
                    && outs.6 == o7
                    && exists|o8: O8|
                    #[trigger] self.7.outcome(c7, Ok(o8), after)
                    && outs.7 == o8,
            Err(err) => {
                &&& after == before
                &&& (self.0.outcome(before, Err(err), before)
                    || exists|o1: O1, c1: &I|
                    #[trigger] self.0.outcome(before, Ok(o1), c1)
                    && (self.1.outcome(c1, Err(err), c1)
                    || exists|o2: O2, c2: &I|
                    #[trigger] self.1.outcome(c1, Ok(o2), c2)
                    && (self.2.outcome(c2, Err(err), c2)
                    || exists|o3: O3, c3: &I|
                    #[trigger] self.2.outcome(c2, Ok(o3), c3)
                    && (self.3.outcome(c3, Err(err), c3)
                    || exists|o4: O4, c4: &I|
                    #[trigger] self.3.outcome(c3, Ok(o4), c4)
                    && (self.4.outcome(c4, Err(err), c4)
                    || exists|o5: O5, c5: &I|
                    #[trigger] self.4.outcome(c4, Ok(o5), c5)
                    && (self.5.outcome(c5, Err(err), c5)
                    || exists|o6: O6, c6: &I|
                    #[trigger] self.5.outcome(c5, Ok(o6), c6)
                    && (self.6.outcome(c6, Err(err), c6)
                    || exists|o7: O7, c7: &I|
                    #[trigger] self.6.outcome(c6, Ok(o7), c7)
                    && self.7.outcome(c7, Err(err), c7))))))))
            },
        }
    }

    fn fab(&self, input: &mut &'a I) -> (res: Result<(O1, O2, O3, O4, O5, O6, O7, O8), E>) {
        let startloc = *input;
        let ghost c0 = *input;
        proof {
            lemma_suffix_of_self(c0.items());
        }
        let r1 = match self.0.fab(input) {
            Ok(out) => out,
            Err(err) => {
                assert(self.0.outcome(c0, Err(err), c0));
                *input = startloc;
                return Err(err);
            },
        };
        let ghost c1 = *input;
        proof {
            assert(self.0.outcome(c0, Ok(r1), c1));
            lemma_suffix_of_suffix(c1.items(), c0.items(), startloc.items());
        }
        let r2 = match self.1.fab(input) {
            Ok(out) => out,
            Err(err) => {
                assert(self.1.outcome(c1, Err(err), c1));
                *input = startloc;
                return Err(err);
            },
        };
        let ghost c2 = *input;
        proof {
            assert(self.1.outcome(c1, Ok(r2), c2));
            lemma_suffix_of_suffix(c2.items(), c1.items(), startloc.items());
        }
        let r3 = match self.2.fab(input) {
            Ok(out) => out,
            Err(err) => {
                assert(self.2.outcome(c2, Err(err), c2));
                *input = startloc;
                return Err(err);
            },
        };
        let ghost c3 = *input;
        proof {
            assert(self.2.outcome(c2, Ok(r3), c3));
            lemma_suffix_of_suffix(c3.items(), c2.items(), startloc.items());
        }
        let r4 = match self.3.fab(input) {
            Ok(out) => out,
            Err(err) => {
                assert(self.3.outcome(c3, Err(err), c3));
                *input = startloc;
                return Err(err);
            },
        };
        let ghost c4 = *input;
        proof {
            assert(self.3.outcome(c3, Ok(r4), c4));
            lemma_suffix_of_suffix(c4.items(), c3.items(), startloc.items());
        }
        let r5 = match self.4.fab(input) {
            Ok(out) => out,
            Err(err) => {
                assert(self.4.outcome(c4, Err(err), c4));
                *input = startloc;
                return Err(err);
            },
        };
        let ghost c5 = *input;
        proof {
            assert(self.4.outcome(c4, Ok(r5), c5));
            lemma_suffix_of_suffix(c5.items(), c4.items(), startloc.items());
        }
        let r6 = match self.5.fab(input) {
            Ok(out) => out,
            Err(err) => {
                assert(self.5.outcome(c5, Err(err), c5));
                *input = startloc;
                return Err(err);
            },
        };
        let ghost c6 = *input;
        proof {
            assert(self.5.outcome(c5, Ok(r6), c6));
            lemma_suffix_of_suffix(c6.items(), c5.items(), startloc.items());
        }
        let r7 = match self.6.fab(input) {
            Ok(out) => out,
            Err(err) => {
                assert(self.6.outcome(c6, Err(err), c6));
                *input = startloc;
                return Err(err);
            },
        };
        let ghost c7 = *input;
        proof {
            assert(self.6.outcome(c6, Ok(r7), c7));
            lemma_suffix_of_suffix(c7.items(), c6.items(), startloc.items());
        }
        let r8 = match self.7.fab(input) {
            Ok(out) => out,
            Err(err) => {
                assert(self.7.outcome(c7, Err(err), c7));
                *input = startloc;
                return Err(err);
            },
        };
        let ghost c8 = *input;
        proof {
            assert(self.7.outcome(c7, Ok(r8), c8));
            lemma_suffix_of_suffix(c8.items(), c7.items(), startloc.items());
        }
        Ok((r1, r2, r3, r4, r5, r6, r7, r8))
    }
}

/// Marks the parser that a tuple of nine parsers is.
pub struct Seq9<T1, T2, T3, T4, T5, T6, T7, T8, T9> {
    p1: PhantomData<T1>,
    p2: PhantomData<T2>,
    p3: PhantomData<T3>,
    p4: PhantomData<T4>,
    p5: PhantomData<T5>,
    p6: PhantomData<T6>,
    p7: PhantomData<T7>,
    p8: PhantomData<T8>,
    p9: PhantomData<T9>,
}

/// A tuple of nine parsers is a parser: it runs them in turn.
impl<'a, I: ?Sized + Sequence, E: ParserError, O1, P1, T1, O2, P2, T2, O3, P3, T3, O4, P4, T4, O5,
    P5, T5, O6, P6, T6, O7, P7, T7, O8, P8, T8, O9, P9, T9> Parser<
    'a,
    I,
    (O1, O2, O3, O4, O5, O6, O7, O8, O9),
    E,
    Seq9<T1, T2, T3, T4, T5, T6, T7, T8, T9>,
> for (P1, P2, P3, P4, P5, P6, P7, P8, P9) where
    P1: Parser<'a, I, O1, E, T1>,
    P2: Parser<'a, I, O2, E, T2>,
    P3: Parser<'a, I, O3, E, T3>,
    P4: Parser<'a, I, O4, E, T4>,
    P5: Parser<'a, I, O5, E, T5>,
    P6: Parser<'a, I, O6, E, T6>,
    P7: Parser<'a, I, O7, E, T7>,
    P8: Parser<'a, I, O8, E, T8>,
    P9: Parser<'a, I, O9, E, T9>,
 {
    open spec fn ready(&self) -> bool {
        &&& self.0.ready()
        &&& self.1.ready()
        &&& self.2.ready()
        &&& self.3.ready()
        &&& self.4.ready()
        &&& self.5.ready()
        &&& self.6.ready()
        &&& self.7.ready()
        &&& self.8.ready()
    }

    open spec fn outcome(&self, before: &I, res: Result<(O1, O2, O3, O4, O5, O6, O7, O8, O9), E>,
        after: &I) -> bool {
        match res {
            Ok(outs) => exists|o1: O1, c1: &I|
                    #[trigger] self.0.outcome(before, Ok(o1), c1)
                    && outs.0 == o1
                    && exists|o2: O2, c2: &I|
                    #[trigger] self.1.outcome(c1, Ok(o2), c2)
                    && outs.1 == o2
                    && exists|o3: O3, c3: &I|
                    #[trigger] self.2.outcome(c2, Ok(o3), c3)
                    && outs.2 == o3
                    && exists|o4: O4, c4: &I|
                    #[trigger] self.3.outcome(c3, Ok(o4), c4)
                    && outs.3 == o4
                    && exists|o5: O5, c5: &I|
                    #[trigger] self.4.outcome(c4, Ok(o5), c5)
                    && outs.4 == o5
                    && exists|o6: O6, c6: &I|
                    #[trigger] self.5.outcome(c5, Ok(o6), c6)
                    && outs.5 == o6
                    && exists|o7: O7, c7: &I|
                    #[trigger] self.6.outcome(c6, Ok(o7), c7)
                    && outs.6 == o7
                    && exists|o8: O8, c8: &I|
                    #[trigger] self.7.outcome(c7, Ok(o8), c8)
                    && outs.7 == o8
                    && exists|o9: O9|
                    #[trigger] self.8.outcome(c8, Ok(o9), after)
                    && outs.8 == o9,
            Err(err) => {
                &&& after == before
                &&& (self.0.outcome(before, Err(err), before)
                    || exists|o1: O1, c1: &I|
                    #[trigger] self.0.outcome(before, Ok(o1), c1)
                    && (self.1.outcome(c1, Err(err), c1)
                    || exists|o2: O2, c2: &I|
                    #[trigger] self.1.outcome(c1, Ok(o2), c2)
                    && (self.2.outcome(c2, Err(err), c2)
                    || exists|o3: O3, c3: &I|
                    #[trigger] self.2.outcome(c2, Ok(o3), c3)
                    && (self.3.outcome(c3, Err(err), c3)
                    || exists|o4: O4, c4: &I|
                    #[trigger] self.3.outcome(c3, Ok(o4), c4)
                    && (self.4.outcome(c4, Err(err), c4)
                    || exists|o5: O5, c5: &I|
                    #[trigger] self.4.outcome(c4, Ok(o5), c5)
                    && (self.5.outcome(c5, Err(err), c5)
                    || exists|o6: O6, c6: &I|
                    #[trigger] self.5.outcome(c5, Ok(o6), c6)
                    && (self.6.outcome(c6, Err(err), c6)
                    || exists|o7: O7, c7: &I|
                    #[trigger] self.6.outcome(c6, Ok(o7), c7)
                    && (self.7.outcome(c7, Err(err), c7)
                    || exists|o8: O8, c8: &I|
                    #[trigger] self.7.outcome(c7, Ok(o8), c8)
                    && self.8.outcome(c8, Err(err), c8)))))))))
            },
        }
    }

    fn fab(&self, input: &mut &'a I) -> (res: Result<(O1, O2, O3, O4, O5, O6, O7, O8, O9), E>) {
        let startloc = *input;
        let ghost c0 = *input;
        proof {
            lemma_suffix_of_self(c0.items());
        }
        let r1 = match self.0.fab(input) {
            Ok(out) => out,
            Err(err) => {
                assert(self.0.outcome(c0, Err(err), c0));
                *input = startloc;
                return Err(err);
            },
        };
        let ghost c1 = *input;
        proof {
            assert(self.0.outcome(c0, Ok(r1), c1));
            lemma_suffix_of_suffix(c1.items(), c0.items(), startloc.items());
        }
        let r2 = match self.1.fab(input) {
            Ok(out) => out,
            Err(err) => {
                assert(self.1.outcome(c1, Err(err), c1));
                *input = startloc;
                return Err(err);
            },
        };
        let ghost c2 = *input;
        proof {
            assert(self.1.outcome(c1, Ok(r2), c2));
            lemma_suffix_of_suffix(c2.items(), c1.items(), startloc.items());
        }
        let r3 = match self.2.fab(input) {
            Ok(out) => out,
            Err(err) => {
                assert(self.2.outcome(c2, Err(err), c2));
                *input = startloc;
                return Err(err);
            },
        };
        let ghost c3 = *input;
        proof {
            assert(self.2.outcome(c2, Ok(r3), c3));
            lemma_suffix_of_suffix(c3.items(), c2.items(), startloc.items());
        }
        let r4 = match self.3.fab(input) {
            Ok(out) => out,
            Err(err) => {
                assert(self.3.outcome(c3, Err(err), c3));
                *input = startloc;
                return Err(err);
            },
        };
        let ghost c4 = *input;
        proof {
            assert(self.3.outcome(c3, Ok(r4), c4));
            lemma_suffix_of_suffix(c4.items(), c3.items(), startloc.items());
        }
        let r5 = match self.4.fab(input) {
            Ok(out) => out,
            Err(err) => {
                assert(self.4.outcome(c4, Err(err), c4));
                *input = startloc;
                return Err(err);
            },
        };
        let ghost c5 = *input;
        proof {
            assert(self.4.outcome(c4, Ok(r5), c5));
            lemma_suffix_of_suffix(c5.items(), c4.items(), startloc.items());
        }
        let r6 = match self.5.fab(input) {
            Ok(out) => out,
            Err(err) => {
                assert(self.5.outcome(c5, Err(err), c5));
                *input = startloc;
                return Err(err);
            },
        };
        let ghost c6 = *input;
        proof {
            assert(self.5.outcome(c5, Ok(r6), c6));
            lemma_suffix_of_suffix(c6.items(), c5.items(), startloc.items());
        }
        let r7 = match self.6.fab(input) {
            Ok(out) => out,
            Err(err) => {
                assert(self.6.outcome(c6, Err(err), c6));
                *input = startloc;
                return Err(err);
            },
        };
        let ghost c7 = *input;
        proof {
            assert(self.6.outcome(c6, Ok(r7), c7));
            lemma_suffix_of_suffix(c7.items(), c6.items(), startloc.items());
        }
        let r8 = match self.7.fab(input) {
            Ok(out) => out,
            Err(err) => {
                assert(self.7.outcome(c7, Err(err), c7));
                *input = startloc;
                return Err(err);
            },
        };
        let ghost c8 = *input;
        proof {
            assert(self.7.outcome(c7, Ok(r8), c8));
            lemma_suffix_of_suffix(c8.items(), c7.items(), startloc.items());
        }
        let r9 = match self.8.fab(input) {
            Ok(out) => out,
            Err(err) => {
                assert(self.8.outcome(c8, Err(err), c8));
                *input = startloc;
                return Err(err);
            },
        };
        let ghost c9 = *input;
        proof {
            assert(self.8.outcome(c8, Ok(r9), c9));
            lemma_suffix_of_suffix(c9.items(), c8.items(), startloc.items());
        }
        Ok((r1, r2, r3, r4, r5, r6, r7, r8, r9))
    }
}

/// Marks the parser that a tuple of ten parsers is.
pub struct Seq10<T1, T2, T3, T4, T5, T6, T7, T8, T9, T10> {
    p1: PhantomData<T1>,
    p2: PhantomData<T2>,
    p3: PhantomData<T3>,
    p4: PhantomData<T4>,
    p5: PhantomData<T5>,
    p6: PhantomData<T6>,
    p7: PhantomData<T7>,
    p8: PhantomData<T8>,
    p9: PhantomData<T9>,
    p10: PhantomData<T10>,
}

/// A tuple of ten parsers is a parser: it runs them in turn.
impl<'a, I: ?Sized + Sequence, E: ParserError, O1, P1, T1, O2, P2, T2, O3, P3, T3, O4, P4, T4, O5,
    P5, T5, O6, P6, T6, O7, P7, T7, O8, P8, T8, O9, P9, T9, O10, P10, T10> Parser<
    'a,
    I,
    (O1, O2, O3, O4, O5, O6, O7, O8, O9, O10),
    E,
    Seq10<T1, T2, T3, T4, T5, T6, T7, T8, T9, T10>,
> for (P1, P2, P3, P4, P5, P6, P7, P8, P9, P10) where
    P1: Parser<'a, I, O1, E, T1>,
    P2: Parser<'a, I, O2, E, T2>,
    P3: Parser<'a, I, O3, E, T3>,
    P4: Parser<'a, I, O4, E, T4>,
    P5: Parser<'a, I, O5, E, T5>,
    P6: Parser<'a, I, O6, E, T6>,
    P7: Parser<'a, I, O7, E, T7>,
    P8: Parser<'a, I, O8, E, T8>,
    P9: Parser<'a, I, O9, E, T9>,
    P10: Parser<'a, I, O10, E, T10>,
 {
    open spec fn ready(&self) -> bool {
        &&& self.0.ready()
        &&& self.1.ready()
        &&& self.2.ready()
        &&& self.3.ready()
        &&& self.4.ready()
        &&& self.5.ready()
        &&& self.6.ready()
        &&& self.7.ready()
        &&& self.8.ready()
        &&& self.9.ready()
    }

    open spec fn outcome(&self, before: &I, res: Result<(O1, O2, O3, O4, O5, O6, O7, O8, O9, O10),
        E>, after: &I) -> bool {
        match res {
            Ok(outs) => exists|o1: O1, c1: &I|
                    #[trigger] self.0.outcome(before, Ok(o1), c1)
                    && outs.0 == o1
                    && exists|o2: O2, c2: &I|
                    #[trigger] self.1.outcome(c1, Ok(o2), c2)
                    && outs.1 == o2
                    && exists|o3: O3, c3: &I|
                    #[trigger] self.2.outcome(c2, Ok(o3), c3)
                    && outs.2 == o3
                    && exists|o4: O4, c4: &I|
                    #[trigger] self.3.outcome(c3, Ok(o4), c4)
                    && outs.3 == o4
                    && exists|o5: O5, c5: &I|
                    #[trigger] self.4.outcome(c4, Ok(o5), c5)
                    && outs.4 == o5
                    && exists|o6: O6, c6: &I|
                    #[trigger] self.5.outcome(c5, Ok(o6), c6)
                    && outs.5 == o6
                    && exists|o7: O7, c7: &I|
                    #[trigger] self.6.outcome(c6, Ok(o7), c7)
                    && outs.6 == o7
                    && exists|o8: O8, c8: &I|
                    #[trigger] self.7.outcome(c7, Ok(o8), c8)
                    && outs.7 == o8
                    && exists|o9: O9, c9: &I|
                    #[trigger] self.8.outcome(c8, Ok(o9), c9)
                    && outs.8 == o9
                    && exists|o10: O10|
                    #[trigger] self.9.outcome(c9, Ok(o10), after)
                    && outs.9 == o10,
            Err(err) => {
                &&& after == before
                &&& (self.0.outcome(before, Err(err), before)
                    || exists|o1: O1, c1: &I|
                    #[trigger] self.0.outcome(before, Ok(o1), c1)
                    && (self.1.outcome(c1, Err(err), c1)
                    || exists|o2: O2, c2: &I|
                    #[trigger] self.1.outcome(c1, Ok(o2), c2)
                    && (self.2.outcome(c2, Err(err), c2)
                    || exists|o3: O3, c3: &I|
                    #[trigger] self.2.outcome(c2, Ok(o3), c3)
                    && (self.3.outcome(c3, Err(err), c3)
                    || exists|o4: O4, c4: &I|
                    #[trigger] self.3.outcome(c3, Ok(o4), c4)
                    && (self.4.outcome(c4, Err(err), c4)
                    || exists|o5: O5, c5: &I|
                    #[trigger] self.4.outcome(c4, Ok(o5), c5)
                    && (self.5.outcome(c5, Err(err), c5)
                    || exists|o6: O6, c6: &I|
                    #[trigger] self.5.outcome(c5, Ok(o6), c6)
                    && (self.6.outcome(c6, Err(err), c6)
                    || exists|o7: O7, c7: &I|
                    #[trigger] self.6.outcome(c6, Ok(o7), c7)
                    && (self.7.outcome(c7, Err(err), c7)
                    || exists|o8: O8, c8: &I|
                    #[trigger] self.7.outcome(c7, Ok(o8), c8)
                    && (self.8.outcome(c8, Err(err), c8)
                    || exists|o9: O9, c9: &I|
                    #[trigger] self.8.outcome(c8, Ok(o9), c9)
                    && self.9.outcome(c9, Err(err), c9))))))))))
            },
        }
    }

    fn fab(&self, input: &mut &'a I) -> (res: Result<(O1, O2, O3, O4, O5, O6, O7, O8, O9, O10),
        E>) {
        let startloc = *input;
        let ghost c0 = *input;
        proof {
            lemma_suffix_of_self(c0.items());
        }
        let r1 = match self.0.fab(input) {
            Ok(out) => out,
            Err(err) => {
                assert(self.0.outcome(c0, Err(err), c0));
                *input = startloc;
                return Err(err);
            },
        };
        let ghost c1 = *input;
        proof {
            assert(self.0.outcome(c0, Ok(r1), c1));
            lemma_suffix_of_suffix(c1.items(), c0.items(), startloc.items());
        }
        let r2 = match self.1.fab(input) {
            Ok(out) => out,
            Err(err) => {
                assert(self.1.outcome(c1, Err(err), c1));
                *input = startloc;
                return Err(err);
            },
        };
        let ghost c2 = *input;
        proof {
            assert(self.1.outcome(c1, Ok(r2), c2));
            lemma_suffix_of_suffix(c2.items(), c1.items(), startloc.items());
        }
        let r3 = match self.2.fab(input) {
            Ok(out) => out,
            Err(err) => {
                assert(self.2.outcome(c2, Err(err), c2));
                *input = startloc;
                return Err(err);
            },
        };
        let ghost c3 = *input;
        proof {
            assert(self.2.outcome(c2, Ok(r3), c3));
            lemma_suffix_of_suffix(c3.items(), c2.items(), startloc.items());
        }
        let r4 = match self.3.fab(input) {
            Ok(out) => out,
            Err(err) => {
                assert(self.3.outcome(c3, Err(err), c3));
                *input = startloc;
                return Err(err);
            },
        };
        let ghost c4 = *input;
        proof {
            assert(self.3.outcome(c3, Ok(r4), c4));
            lemma_suffix_of_suffix(c4.items(), c3.items(), startloc.items());
        }
        let r5 = match self.4.fab(input) {
            Ok(out) => out,
            Err(err) => {
                assert(self.4.outcome(c4, Err(err), c4));
                *input = startloc;
                return Err(err);
            },
        };
        let ghost c5 = *input;
        proof {
            assert(self.4.outcome(c4, Ok(r5), c5));
            lemma_suffix_of_suffix(c5.items(), c4.items(), startloc.items());
        }
        let r6 = match self.5.fab(input) {
            Ok(out) => out,
            Err(err) => {
                assert(self.5.outcome(c5, Err(err), c5));
                *input = startloc;
                return Err(err);
            },
        };
        let ghost c6 = *input;
        proof {
            assert(self.5.outcome(c5, Ok(r6), c6));
            lemma_suffix_of_suffix(c6.items(), c5.items(), startloc.items());
        }
        let r7 = match self.6.fab(input) {
            Ok(out) => out,
            Err(err) => {
                assert(self.6.outcome(c6, Err(err), c6));
                *input = startloc;
                return Err(err);
            },
        };
        let ghost c7 = *input;
        proof {
            assert(self.6.outcome(c6, Ok(r7), c7));
            lemma_suffix_of_suffix(c7.items(), c6.items(), startloc.items());
        }
        let r8 = match self.7.fab(input) {
            Ok(out) => out,
            Err(err) => {
                assert(self.7.outcome(c7, Err(err), c7));
                *input = startloc;
                return Err(err);
            },
        };
        let ghost c8 = *input;
        proof {
            assert(self.7.outcome(c7, Ok(r8), c8));
            lemma_suffix_of_suffix(c8.items(), c7.items(), startloc.items());
        }
        let r9 = match self.8.fab(input) {
            Ok(out) => out,
            Err(err) => {
                assert(self.8.outcome(c8, Err(err), c8));
                *input = startloc;
                return Err(err);
            },
        };
        let ghost c9 = *input;
        proof {
            assert(self.8.outcome(c8, Ok(r9), c9));
            lemma_suffix_of_suffix(c9.items(), c8.items(), startloc.items());
        }
        let r10 = match self.9.fab(input) {
            Ok(out) => out,
            Err(err) => {
                assert(self.9.outcome(c9, Err(err), c9));
                *input = startloc;
                return Err(err);
            },
        };
        let ghost c10 = *input;
        proof {
            assert(self.9.outcome(c9, Ok(r10), c10));
            lemma_suffix_of_suffix(c10.items(), c9.items(), startloc.items());
        }
        Ok((r1, r2, r3, r4, r5, r6, r7, r8, r9, r10))
    }
}

/// Marks the parser that a tuple of eleven parsers is.
pub struct Seq11<T1, T2, T3, T4, T5, T6, T7, T8, T9, T10, T11> {
    p1: PhantomData<T1>,
    p2: PhantomData<T2>,
    p3: PhantomData<T3>,
    p4: PhantomData<T4>,
    p5: PhantomData<T5>,
    p6: PhantomData<T6>,
    p7: PhantomData<T7>,
    p8: PhantomData<T8>,
    p9: PhantomData<T9>,
    p10: PhantomData<T10>,
    p11: PhantomData<T11>,
}

/// A tuple of eleven parsers is a parser: it runs them in turn.
impl<'a, I: ?Sized + Sequence, E: ParserError, O1, P1, T1, O2, P2, T2, O3, P3, T3, O4, P4, T4, O5,
    P5, T5, O6, P6, T6, O7, P7, T7, O8, P8, T8, O9, P9, T9, O10, P10, T10, O11, P11, T11> Parser<
    'a,
    I,
    (O1, O2, O3, O4, O5, O6, O7, O8, O9, O10, O11),
    E,
    Seq11<T1, T2, T3, T4, T5, T6, T7, T8, T9, T10, T11>,
> for (P1, P2, P3, P4, P5, P6, P7, P8, P9, P10, P11) where
    P1: Parser<'a, I, O1, E, T1>,
    P2: Parser<'a, I, O2, E, T2>,
    P3: Parser<'a, I, O3, E, T3>,
    P4: Parser<'a, I, O4, E, T4>,
    P5: Parser<'a, I, O5, E, T5>,
    P6: Parser<'a, I, O6, E, T6>,
    P7: Parser<'a, I, O7, E, T7>,
    P8: Parser<'a, I, O8, E, T8>,
    P9: Parser<'a, I, O9, E, T9>,
    P10: Parser<'a, I, O10, E, T10>,
    P11: Parser<'a, I, O11, E, T11>,
 {
    open spec fn ready(&self) -> bool {
        &&& self.0.ready()
        &&& self.1.ready()
        &&& self.2.ready()
        &&& self.3.ready()
        &&& self.4.ready()
        &&& self.5.ready()
        &&& self.6.ready()
        &&& self.7.ready()
        &&& self.8.ready()
        &&& self.9.ready()
        &&& self.10.ready()
    }

    open spec fn outcome(&self, before: &I, res: Result<(O1, O2, O3, O4, O5, O6, O7, O8, O9, O10,
        O11), E>, after: &I) -> bool {
        match res {
            Ok(outs) => exists|o1: O1, c1: &I|
                    #[trigger] self.0.outcome(before, Ok(o1), c1)
                    && outs.0 == o1
                    && exists|o2: O2, c2: &I|
                    #[trigger] self.1.outcome(c1, Ok(o2), c2)
                    && outs.1 == o2
                    && exists|o3: O3, c3: &I|
                    #[trigger] self.2.outcome(c2, Ok(o3), c3)
                    && outs.2 == o3
                    && exists|o4: O4, c4: &I|
                    #[trigger] self.3.outcome(c3, Ok(o4), c4)
                    && outs.3 == o4
                    && exists|o5: O5, c5: &I|
                    #[trigger] self.4.outcome(c4, Ok(o5), c5)
                    && outs.4 == o5
                    && exists|o6: O6, c6: &I|
                    #[trigger] self.5.outcome(c5, Ok(o6), c6)
                    && outs.5 == o6
                    && exists|o7: O7, c7: &I|
                    #[trigger] self.6.outcome(c6, Ok(o7), c7)
                    && outs.6 == o7
                    && exists|o8: O8, c8: &I|
                    #[trigger] self.7.outcome(c7, Ok(o8), c8)
                    && outs.7 == o8
                    && exists|o9: O9, c9: &I|
                    #[trigger] self.8.outcome(c8, Ok(o9), c9)
                    && outs.8 == o9
                    && exists|o10: O10, c10: &I|
                    #[trigger] self.9.outcome(c9, Ok(o10), c10)
                    && outs.9 == o10
                    && exists|o11: O11|
                    #[trigger] self.10.outcome(c10, Ok(o11), after)
                    && outs.10 == o11,
            Err(err) => {
                &&& after == before
                &&& (self.0.outcome(before, Err(err), before)
                    || exists|o1: O1, c1: &I|
                    #[trigger] self.0.outcome(before, Ok(o1), c1)
                    && (self.1.outcome(c1, Err(err), c1)
                    || exists|o2: O2, c2: &I|
                    #[trigger] self.1.outcome(c1, Ok(o2), c2)
                    && (self.2.outcome(c2, Err(err), c2)
                    || exists|o3: O3, c3: &I|
                    #[trigger] self.2.outcome(c2, Ok(o3), c3)
                    && (self.3.outcome(c3, Err(err), c3)
                    || exists|o4: O4, c4: &I|
                    #[trigger] self.3.outcome(c3, Ok(o4), c4)
                    && (self.4.outcome(c4, Err(err), c4)
                    || exists|o5: O5, c5: &I|
                    #[trigger] self.4.outcome(c4, Ok(o5), c5)
                    && (self.5.outcome(c5, Err(err), c5)
                    || exists|o6: O6, c6: &I|
                    #[trigger] self.5.outcome(c5, Ok(o6), c6)
                    && (self.6.outcome(c6, Err(err), c6)
                    || exists|o7: O7, c7: &I|
                    #[trigger] self.6.outcome(c6, Ok(o7), c7)
                    && (self.7.outcome(c7, Err(err), c7)
                    || exists|o8: O8, c8: &I|
                    #[trigger] self.7.outcome(c7, Ok(o8), c8)
                    && (self.8.outcome(c8, Err(err), c8)
                    || exists|o9: O9, c9: &I|
                    #[trigger] self.8.outcome(c8, Ok(o9), c9)
                    && (self.9.outcome(c9, Err(err), c9)
                    || exists|o10: O10, c10: &I|
                    #[trigger] self.9.outcome(c9, Ok(o10), c10)
                    && self.10.outcome(c10, Err(err), c10)))))))))))
            },
        }
    }

    fn fab(&self, input: &mut &'a I) -> (res: Result<(O1, O2, O3, O4, O5, O6, O7, O8, O9, O10,
        O11), E>) {
        let startloc = *input;
        let ghost c0 = *input;
        proof {
            lemma_suffix_of_self(c0.items());
        }
        let r1 = match self.0.fab(input) {
            Ok(out) => out,
            Err(err) => {
                assert(self.0.outcome(c0, Err(err), c0));
                *input = startloc;
                return Err(err);
            },
        };
        let ghost c1 = *input;
        proof {
            assert(self.0.outcome(c0, Ok(r1), c1));
            lemma_suffix_of_suffix(c1.items(), c0.items(), startloc.items());
        }
        let r2 = match self.1.fab(input) {
            Ok(out) => out,
            Err(err) => {
                assert(self.1.outcome(c1, Err(err), c1));
                *input = startloc;
                return Err(err);
            },
        };
        let ghost c2 = *input;
        proof {
            assert(self.1.outcome(c1, Ok(r2), c2));
            lemma_suffix_of_suffix(c2.items(), c1.items(), startloc.items());
        }
        let r3 = match self.2.fab(input) {
            Ok(out) => out,
            Err(err) => {
                assert(self.2.outcome(c2, Err(err), c2));
                *input = startloc;
                return Err(err);
            },
        };
        let ghost c3 = *input;
        proof {
            assert(self.2.outcome(c2, Ok(r3), c3));
            lemma_suffix_of_suffix(c3.items(), c2.items(), startloc.items());
        }
        let r4 = match self.3.fab(input) {
            Ok(out) => out,
            Err(err) => {
                assert(self.3.outcome(c3, Err(err), c3));
                *input = startloc;
                return Err(err);
            },
        };
        let ghost c4 = *input;
        proof {
            assert(self.3.outcome(c3, Ok(r4), c4));
            lemma_suffix_of_suffix(c4.items(), c3.items(), startloc.items());
        }
        let r5 = match self.4.fab(input) {
            Ok(out) => out,
            Err(err) => {
                assert(self.4.outcome(c4, Err(err), c4));
                *input = startloc;
                return Err(err);
            },
        };
        let ghost c5 = *input;
        proof {
            assert(self.4.outcome(c4, Ok(r5), c5));
            lemma_suffix_of_suffix(c5.items(), c4.items(), startloc.items());
        }
        let r6 = match self.5.fab(input) {
            Ok(out) => out,
            Err(err) => {
                assert(self.5.outcome(c5, Err(err), c5));
                *input = startloc;
                return Err(err);
            },
        };
        let ghost c6 = *input;
        proof {
            assert(self.5.outcome(c5, Ok(r6), c6));
            lemma_suffix_of_suffix(c6.items(), c5.items(), startloc.items());
        }
        let r7 = match self.6.fab(input) {
            Ok(out) => out,
            Err(err) => {
                assert(self.6.outcome(c6, Err(err), c6));
                *input = startloc;
                return Err(err);
            },
        };
        let ghost c7 = *input;
        proof {
            assert(self.6.outcome(c6, Ok(r7), c7));
            lemma_suffix_of_suffix(c7.items(), c6.items(), startloc.items());
        }
        let r8 = match self.7.fab(input) {
            Ok(out) => out,
            Err(err) => {
                assert(self.7.outcome(c7, Err(err), c7));
                *input = startloc;
                return Err(err);
            },
        };
        let ghost c8 = *input;
        proof {
            assert(self.7.outcome(c7, Ok(r8), c8));
            lemma_suffix_of_suffix(c8.items(), c7.items(), startloc.items());
        }
        let r9 = match self.8.fab(input) {
            Ok(out) => out,
            Err(err) => {
                assert(self.8.outcome(c8, Err(err), c8));
                *input = startloc;
                return Err(err);
            },
        };
        let ghost c9 = *input;
        proof {
            assert(self.8.outcome(c8, Ok(r9), c9));
            lemma_suffix_of_suffix(c9.items(), c8.items(), startloc.items());
        }
        let r10 = match self.9.fab(input) {
            Ok(out) => out,
            Err(err) => {
                assert(self.9.outcome(c9, Err(err), c9));
                *input = startloc;
                return Err(err);
            },
        };
        let ghost c10 = *input;
        proof {
            assert(self.9.outcome(c9, Ok(r10), c10));
            lemma_suffix_of_suffix(c10.items(), c9.items(), startloc.items());
        }
        let r11 = match self.10.fab(input) {
            Ok(out) => out,
            Err(err) => {
                assert(self.10.outcome(c10, Err(err), c10));
                *input = startloc;
                return Err(err);
            },
        };
        let ghost c11 = *input;
        proof {
            assert(self.10.outcome(c10, Ok(r11), c11));
            lemma_suffix_of_suffix(c11.items(), c10.items(), startloc.items());
        }
        Ok((r1, r2, r3, r4, r5, r6, r7, r8, r9, r10, r11))
    }
}


} // verus!
