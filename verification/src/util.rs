//! Parsers for numbers in text.

use crate::error::{loc, position, ParserError};
use crate::repeat::{falls_short, rounds, InputSliceReducer};
use crate::sequence::{
    is_suffix, lemma_extent_split, lemma_suffix_of_self, lemma_suffix_of_suffix, subtract,
    Sequence,
};
use crate::tag::FnBoolSeqParser;
use crate::{opt, Parser, ParserType};
use std::convert::Infallible;
use vstd::prelude::*;

verus! {

/// `c` is one of the digits `0` to `9`.
pub open spec fn is_digit(c: char) -> bool {
    '0' <= c && c <= '9'
}

/// Whether `c` is one of the digits `0` to `9`.
pub fn is_ascii_digit(c: char) -> (held: bool)
    ensures
        held == is_digit(c),
{
    c >= '0' && c <= '9'
}

/// The number of digits that `s` starts with.
pub open spec fn leading_digits(s: Seq<char>) -> nat
    decreases s.len(),
{
    if s.len() > 0 && is_digit(s[0]) {
        1 + leading_digits(s.drop_first())
    } else {
        0
    }
}

/// A sequence starts with no more digits than it has characters.
pub proof fn lemma_leading_digits_bound(s: Seq<char>)
    ensures
        leading_digits(s) <= s.len(),
    decreases s.len(),
{
    if s.len() > 0 && is_digit(s[0]) {
        lemma_leading_digits_bound(s.drop_first());
    }
}

/// The number of digits that a repetition reads that has made `reps`
/// repetitions and finds `s`: those that `s` starts with, as far as it
/// makes repetitions.
pub open spec fn digits_read(s: Seq<char>, reps: nat) -> nat {
    let most = (usize::MAX - 1 - reps) as nat;
    if leading_digits(s) <= most {
        leading_digits(s)
    } else {
        most
    }
}

/// What the parser that a predicate on characters is may come to.
#[verifier::inline]
pub open spec fn one_char<'a, E: ParserError, F: Fn(char) -> bool>(
    pred: &F,
    before: &str,
    res: Result<char, E>,
    after: &str,
) -> bool {
    <F as Parser<'a, str, char, E, FnBoolSeqParser>>::outcome(pred, before, res, after)
}

/// What a repetition of the parser that a predicate for digits is may
/// come to, when it reads at least one digit and returns what it has read.
#[verifier::inline]
pub open spec fn digit_rounds<'a, E: ParserError, F: Fn(char) -> bool>(
    pred: &F,
    start: &'a str,
    reps: nat,
    cur: &'a str,
    res: Result<&'a str, E>,
    after: &'a str,
) -> bool {
    rounds::<
        F,
        str,
        char,
        E,
        FnBoolSeqParser,
        InputSliceReducer,
        (),
        Infallible,
        InputSliceReducer,
        &'a str,
    >(pred, &InputSliceReducer, 1, usize::MAX, start, reps, cur, (), res, after)
}

/// A repetition of a parser for one digit reads the digits that it finds.
proof fn lemma_digit_rounds<'a, E, F>(
    pred: &F,
    start: &'a str,
    reps: nat,
    cur: &'a str,
    res: Result<&'a str, E>,
    after: &'a str,
) where E: ParserError, F: Fn(char) -> bool
    requires
        forall|c: char, held: bool| call_ensures(*pred, (c,), held) ==> held == is_digit(c),
        str::extent(start@) <= usize::MAX,
        is_suffix(cur@, start@),
        reps < usize::MAX,
        digit_rounds(pred, start, reps, cur, res, after),
    ensures
        reps + digits_read(cur@, reps) >= 1 ==> (res matches Ok(out) && out@ + after@ == start@
            && after@ == cur@.skip(digits_read(cur@, reps) as int)),
        reps + digits_read(cur@, reps) == 0 ==> falls_short(start, res, after),
    decreases usize::MAX - reps,
{
    lemma_extent_split::<str>(start@, start@.len() - cur@.len());
    assert(cur@.skip(0) =~= cur@);
    if reps + 1 < usize::MAX {
        let digit = cur@.len() > 0 && is_digit(cur@[0]);
        assert forall|inner: E| #[trigger] one_char(pred, cur, Err::<char, E>(inner), cur) implies !digit by {}
        assert forall|val: char, next: &'a str| #[trigger]
            one_char(pred, cur, Ok::<char, E>(val), next) implies {
            &&& digit
            &&& next@ == cur@.drop_first()
            &&& position(next) != position(cur)
            &&& is_suffix(next@, start@)
        } by {
            assert(cur@ =~= seq![cur@[0]] + next@);
            str::extent_of_concat(seq![cur@[0]], next@);
            str::extent_of_one(cur@[0]);
            assert(start@.skip(start@.len() - next@.len()) =~= start@.skip(
                start@.len() - cur@.len(),
            ).drop_first());
        }
        if digit {
            let (val, next) = choose|val: char, next: &'a str|
                {
                    &&& #[trigger] one_char(pred, cur, Ok::<char, E>(val), next)
                    &&& digit_rounds(pred, start, reps + 1, next, res, after)
                };
            lemma_digit_rounds(pred, start, reps + 1, next, res, after);
            lemma_leading_digits_bound(next@);
            assert(cur@.skip(1 + digits_read(next@, reps + 1) as int) =~= next@.skip(
                digits_read(next@, reps + 1) as int,
            ));
        }
    }
}

/// Reads digits with a predicate for digits: one digit at least.
fn digits_with<'a, E: ParserError, F: Fn(char) -> bool>(pred: F, input: &mut &'a str) -> (res:
    Result<&'a str, E>)
    requires
        forall|c: char| call_requires(pred, (c,)),
        forall|c: char, held: bool| call_ensures(pred, (c,), held) ==> held == is_digit(c),
    ensures
        reads_digits(*old(input), res, *final(input)),
        res is Err ==> *final(input) == *old(input),
        res is Ok ==> is_suffix(final(input)@, old(input)@),
{
    let ghost start = *input;
    let at = loc(*input);
    let parser = pred.fab_repeat().min(1).as_input_slice();
    let res = parser.fab(input);
    proof {
        lemma_suffix_of_self(start@);
        lemma_digit_rounds(&pred, start, 0, start, res, *input);
        lemma_leading_digits_bound(start@);
        let count = digits_read(start@, 0) as int;
        if let Ok(out) = res {
            assert(out@ =~= start@.take(count)) by {
                assert(start@ =~= start@.take(count) + start@.skip(count));
                assert(out@.len() == count);
                assert((out@ + input@).take(count) =~= out@);
            }
        }
    }
    res
}

/// Where `before` starts with a digit, the digits that it starts with are
/// read and returned; else the error is of kind `Repeat`, and the cursor
/// stays. No more than `usize::MAX - 1` digits are read.
pub open spec fn reads_digits<E: ParserError>(before: &str, res: Result<&str, E>, after: &str) -> bool {
    let count = digits_read(before@, 0);
    if count >= 1 {
        &&& res matches Ok(out) && out@ == before@.take(count as int)
        &&& after@ == before@.skip(count as int)
    } else {
        falls_short(before, res, after)
    }
}

/// Reads an unsigned number: the digits that the input starts with, one at
/// least.
pub fn num_unsigned_str<'a, E: ParserError>(input: &mut &'a str) -> (res: Result<&'a str, E>)
    ensures
        reads_digits(*old(input), res, *final(input)),
{
    digits_with(is_ascii_digit, input)
}

/// The length of the sign that `s` starts with: one for a minus, else
/// none.
pub open spec fn sign_len(s: Seq<char>) -> nat {
    if s.len() > 0 && s[0] == '-' {
        1
    } else {
        0
    }
}

/// The length of the signed number that `s` starts with: a minus, or
/// none, and digits. Zero where `s` starts with none.
pub open spec fn signed_len(s: Seq<char>) -> nat {
    let digits = digits_read(s.skip(sign_len(s) as int), 0);
    if digits >= 1 {
        sign_len(s) + digits
    } else {
        0
    }
}

/// The length of the fraction that `s` starts with: a point and digits.
/// Zero where `s` starts with none.
pub open spec fn fraction_len(s: Seq<char>) -> nat {
    if s.len() > 0 && s[0] == '.' && digits_read(s.skip(1), 0) >= 1 {
        1 + digits_read(s.skip(1), 0)
    } else {
        0
    }
}

/// The length of the number with a fraction that `s` starts with: a
/// signed number and, where one follows, a fraction. Zero where `s` starts
/// with none.
pub open spec fn float_len(s: Seq<char>) -> nat {
    if signed_len(s) >= 1 {
        signed_len(s) + fraction_len(s.skip(signed_len(s) as int))
    } else {
        0
    }
}

/// A number is no longer than what it is the start of.
pub proof fn lemma_number_bound(s: Seq<char>)
    ensures
        signed_len(s) <= s.len(),
        fraction_len(s) <= s.len(),
        float_len(s) <= s.len(),
{
    lemma_leading_digits_bound(s.skip(sign_len(s) as int));
    if s.len() > 0 {
        lemma_leading_digits_bound(s.skip(1));
    }
    if signed_len(s) >= 1 {
        let rest = s.skip(signed_len(s) as int);
        if rest.len() > 0 {
            lemma_leading_digits_bound(rest.skip(1));
        }
    }
}

/// Where `count` is not zero, the first `count` characters of `before`
/// are read and returned. Where it is zero, the error is of kind
/// `Repeat`, at the position of the cursor behind the sign, and the cursor
/// stays.
pub open spec fn reads_number<E: ParserError>(
    before: &str,
    count: nat,
    res: Result<&str, E>,
    after: &str,
) -> bool {
    if count >= 1 {
        &&& res matches Ok(out) && out@ == before@.take(count as int)
        &&& after@ == before@.skip(count as int)
    } else {
        &&& after == before
        &&& res matches Err(err) && err.is_parser_error(
            (usize::MAX - str::extent(before@.skip(sign_len(before@) as int))) as usize,
            ParserType::Repeat,
        )
    }
}

/// Reads a signed number: a minus, or none, and digits.
pub fn num_signed_str<'a, E: ParserError>(input: &mut &'a str) -> (res: Result<&'a str, E>)
    ensures
        reads_number(*old(input), signed_len(old(input)@), res, *final(input)),
        res is Ok ==> is_suffix(final(input)@, old(input)@),
{
    let orig_input = *input;
    let sign: Result<Option<char>, E> = opt('-').fab(input);
    let ghost unsigned = *input;
    proof {
        lemma_leading_digits_bound(unsigned@);
        assert(unsigned@ == orig_input@.skip(sign_len(orig_input@) as int)) by {
            assert(orig_input@.skip(0) =~= orig_input@);
            assert(orig_input@.skip(1) =~= orig_input@.drop_first());
        }
    }
    match digits_with(is_ascii_digit, input) {
        Ok(_) => {
            proof {
                lemma_suffix_of_suffix(input@, unsigned@, orig_input@);
            }
            let read = subtract(orig_input, *input);
            proof {
                let count = signed_len(orig_input@) as int;
                assert(input@ =~= orig_input@.skip(count));
                assert(read@ =~= orig_input@.take(count)) by {
                    assert(orig_input@ =~= orig_input@.take(count) + orig_input@.skip(count));
                    assert(read@.len() == count);
                    assert((read@ + input@).take(count) =~= read@);
                }
            }
            Ok(read)
        },
        Err(err) => {
            *input = orig_input;
            Err(err)
        },
    }
}

/// Reads a fraction with a predicate for digits, where one is there: a
/// point and one digit at least.
fn fraction_with<'a, E: ParserError, F: Fn(char) -> bool>(pred: F, input: &mut &'a str) -> (res:
    Option<(char, &'a str)>)
    requires
        forall|c: char| call_requires(pred, (c,)),
        forall|c: char, held: bool| call_ensures(pred, (c,), held) ==> held == is_digit(c),
    ensures
        final(input)@ == old(input)@.skip(fraction_len(old(input)@) as int),
        is_suffix(final(input)@, old(input)@),
        res is Some <==> fraction_len(old(input)@) >= 1,
{
    let ghost start = *input;
    let at = loc(*input);
    let parser = opt(('.', pred.fab_repeat().min(1).as_input_slice()));
    let found: Result<Option<(char, &'a str)>, E> = parser.fab(input);
    proof {
        assert(start@.skip(0) =~= start@);
        assert forall|dot: char, digits: &'a str|
            #![trigger parser.parser.outcome(start, Ok::<(char, &'a str), E>((dot, digits)), *input)]
            parser.parser.outcome(
                start,
                Ok::<(char, &'a str), E>((dot, digits)),
                *input,
            ) implies fraction_len(start@) >= 1 && input@ == start@.skip(
            fraction_len(start@) as int,
        ) by {
            let point = choose|point: &'a str|
                {
                    &&& #[trigger] parser.parser.0.outcome(start, Ok::<char, E>(dot), point)
                    &&& parser.parser.1.outcome(point, Ok::<&'a str, E>(digits), *input)
                };
            assert(point@ =~= start@.skip(1));
            lemma_extent_split::<str>(start@, 1);
            lemma_suffix_of_self(point@);
            lemma_digit_rounds(&pred, point, 0, point, Ok::<&'a str, E>(digits), *input);
            lemma_leading_digits_bound(point@);
            assert(start@.skip(1).skip(digits_read(point@, 0) as int) =~= start@.skip(
                1 + digits_read(point@, 0) as int,
            ));
        }
        assert forall|inner: E| #[trigger]
            parser.parser.outcome(start, Err::<(char, &'a str), E>(inner), start) implies fraction_len(
            start@,
        ) == 0 by {
            if !parser.parser.0.outcome(start, Err::<char, E>(inner), start) {
                let (dot, point) = choose|dot: char, point: &'a str|
                    {
                        &&& #[trigger] parser.parser.0.outcome(start, Ok::<char, E>(dot), point)
                        &&& parser.parser.1.outcome(point, Err::<&'a str, E>(inner), point)
                    };
                assert(point@ =~= start@.skip(1));
                lemma_extent_split::<str>(start@, 1);
                lemma_suffix_of_self(point@);
                lemma_digit_rounds(&pred, point, 0, point, Err::<&'a str, E>(inner), point);
            }
        }
    }
    match found {
        Ok(fraction) => fraction,
        Err(_) => None,
    }
}

/// Reads a number with a fraction: a signed number and, where they
/// follow, a point and digits.
pub fn float_str<'a, E: ParserError>(input: &mut &'a str) -> (res: Result<&'a str, E>)
    ensures
        reads_number(*old(input), float_len(old(input)@), res, *final(input)),
        res is Ok ==> is_suffix(final(input)@, old(input)@),
{
    let orig_input = *input;
    match num_signed_str::<E>(input) {
        Ok(_) => {},
        Err(err) => {
            return Err(err);
        },
    }
    let ghost whole = *input;
    let _decimal_part = fraction_with::<E, _>(is_ascii_digit, input);
    proof {
        lemma_suffix_of_suffix(input@, whole@, orig_input@);
    }
    let read = subtract(orig_input, *input);
    proof {
        let count = float_len(orig_input@) as int;
        lemma_number_bound(orig_input@);
        lemma_number_bound(whole@);
        assert(input@ =~= orig_input@.skip(count));
        assert(read@ =~= orig_input@.take(count)) by {
            assert(orig_input@ =~= orig_input@.take(count) + orig_input@.skip(count));
            assert(read@.len() == count);
            assert((read@ + input@).take(count) =~= read@);
        }
    }
    Ok(read)
}

} // verus!
