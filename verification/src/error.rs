//! Errors: what a failing parser reports, and how it is shown against the
//! input.

use crate::sequence::{
    is_suffix, lemma_extent_grows, lemma_extent_split, lemma_suffix_of_self, lemma_tail_is_suffix,
    subtract, Sequence,
};
use crate::ParserType;
use smallvec::SmallVec;
use std::fmt::{Debug, Display};
use vstd::prelude::*;
use vstd::string::{to_string_from_display_ensures, StringExecFns};

verus! {

/// Where a cursor stands. Positions are counted back from `usize::MAX`, so
/// the positions of two cursors into one input differ by as much as the
/// lengths of what the cursors have left to read.
pub open spec fn position<I: ?Sized + Sequence>(seq: &I) -> usize {
    (usize::MAX - I::extent(seq.items())) as usize
}

/// The position of a cursor.
pub fn loc<I: ?Sized + Sequence>(seq: &I) -> (at: usize)
    ensures
        at == position(seq),
        at + I::extent(seq.items()) == usize::MAX,
{
    usize::MAX - seq.len()
}

/// What went wrong outside the parsers, in words.
pub trait Cause {
    /// `text` is a description that `describe` may give.
    spec fn describes(&self, text: Seq<char>) -> bool;

    /// A description of what went wrong.
    fn describe(&self) -> (text: String)
        ensures
            self.describes(text@),
    ;
}

/// What can be displayed is a cause: it is described as it is displayed.
impl<T: Display> Cause for T {
    open spec fn describes(&self, text: Seq<char>) -> bool {
        exists|s: String| s@ == text && #[trigger] to_string_from_display_ensures::<T>(self, s)
    }

    fn describe(&self) -> (text: String) {
        self.to_string()
    }
}

/// What a parser reports when it fails.
pub trait ParserError: Sized {
    /// The error is what a parser of kind `kind` that started at `at`
    /// reports by itself.
    spec fn is_parser_error(&self, at: usize, kind: ParserType) -> bool;

    /// The error is what a parser of kind `kind` that started at `at`
    /// reports when something outside the parsers went wrong.
    spec fn is_external_error(&self, at: usize, kind: ParserType) -> bool;

    /// The description of the outside error that the error carries, if it
    /// carries one.
    spec fn cause_text(&self) -> Option<Seq<char>>;

    /// The error is `inner`, seen from a parser of kind `kind` that started
    /// at `at`.
    spec fn extends(&self, inner: &Self, at: usize, kind: ParserType) -> bool;

    /// Where the parser that reported the error started, if the error
    /// keeps that.
    spec fn location(&self) -> Option<usize>;

    fn from_parser_error<T: ?Sized + Sequence>(input: &T, parser_type: ParserType) -> (err: Self)
        ensures
            err.is_parser_error(position(input), parser_type),
    ;

    fn from_external_error<T: ?Sized + Sequence, C: Cause>(
        input: &T,
        parser_type: ParserType,
        cause: C,
    ) -> (err: Self)
        ensures
            err.is_external_error(position(input), parser_type),
            err.cause_text() matches Some(text) ==> cause.describes(text),
    ;

    fn add_context<T: ?Sized + Sequence>(&mut self, input: &T, parser_type: ParserType)
        ensures
            final(self).extends(old(self), position(input), parser_type),
    ;

    /// The location of the error. Combinators use it to find the parser
    /// that made the furthest progress.
    fn get_loc(&self) -> (at: Option<usize>)
        ensures
            at == self.location(),
    ;
}

/// `err` is what a parser of kind `kind` that started at `at` reports when
/// `cause` went wrong, and a description that `err` carries is one of
/// `cause`.
pub open spec fn reports_cause<E: ParserError, C: Cause>(
    err: E,
    at: usize,
    kind: ParserType,
    cause: C,
) -> bool {
    &&& err.is_external_error(at, kind)
    &&& err.cause_text() matches Some(text) ==> cause.describes(text)
}

/// An error that keeps nothing: neither where a parser failed nor which.
/// It is the fastest to make; [`FabError`] is the one to debug with.
#[derive(Debug, Clone, Copy)]
pub struct NoContextFabError;

impl ParserError for NoContextFabError {
    open spec fn is_parser_error(&self, at: usize, kind: ParserType) -> bool {
        true
    }

    open spec fn is_external_error(&self, at: usize, kind: ParserType) -> bool {
        true
    }

    open spec fn cause_text(&self) -> Option<Seq<char>> {
        None
    }

    open spec fn extends(&self, inner: &Self, at: usize, kind: ParserType) -> bool {
        true
    }

    open spec fn location(&self) -> Option<usize> {
        None
    }

    fn from_parser_error<T: ?Sized + Sequence>(input: &T, parser_type: ParserType) -> (err: Self) {
        NoContextFabError
    }

    fn from_external_error<T: ?Sized + Sequence, C: Cause>(
        input: &T,
        parser_type: ParserType,
        cause: C,
    ) -> (err: Self) {
        NoContextFabError
    }

    fn add_context<T: ?Sized + Sequence>(&mut self, input: &T, parser_type: ParserType) {
    }

    fn get_loc(&self) -> (at: Option<usize>) {
        None
    }
}

/// One frame of an error's trace: where a parser started, and its kind.
#[derive(Debug, Clone, Copy)]
pub struct LocatedError {
    pub location: usize,
    pub parser_type: ParserType,
}

/// The frames of an error, innermost first, in a vector that keeps a
/// single frame inline.
#[derive(Debug)]
#[verifier::external_body]
pub struct FrameStack {
    frames: SmallVec<[LocatedError; 1]>,
}

/// The frames that a stack holds, in the order in which they were pushed.
pub uninterp spec fn stack_frames(stack: FrameStack) -> Seq<LocatedError>;

impl FrameStack {
    /// `SmallVec::new`: a vector without items.
    #[verifier::external_body]
    fn new() -> (stack: FrameStack)
        ensures
            stack_frames(stack) == Seq::<LocatedError>::empty(),
    {
        FrameStack { frames: SmallVec::new() }
    }

    /// `SmallVec::push`: the item is appended, the others stay as they were.
    #[verifier::external_body]
    fn push(&mut self, frame: LocatedError)
        ensures
            stack_frames(*final(self)) == stack_frames(*old(self)).push(frame),
    {
        self.frames.push(frame)
    }

    /// `SmallVec::len`: the number of items.
    #[verifier::external_body]
    fn len(&self) -> (n: usize)
        ensures
            n == stack_frames(*self).len(),
    {
        self.frames.len()
    }

    /// Indexing through `SmallVec`'s `Deref` to a slice: the item at `i`.
    #[verifier::external_body]
    fn get(&self, i: usize) -> (frame: LocatedError)
        requires
            i < stack_frames(*self).len(),
        ensures
            frame == stack_frames(*self)[i as int],
    {
        self.frames[i]
    }
}

/// The error to debug with. It keeps a frame for the parser that failed
/// and one for each parser around it that marked its place, and the
/// description of what went wrong outside the parsers, if that is why the
/// parser failed. [`FabError::trace`] renders it against the input.
#[derive(Debug)]
pub struct FabError {
    stack: FrameStack,
    cause: Option<String>,
}

impl FabError {
    /// The frames of the error, innermost first.
    pub closed spec fn frames(&self) -> Seq<LocatedError> {
        stack_frames(self.stack)
    }

    /// An error has at least one frame: that of the parser that reported it.
    pub open spec fn well_formed(&self) -> bool {
        self.frames().len() > 0
    }
}

impl ParserError for FabError {
    open spec fn is_parser_error(&self, at: usize, kind: ParserType) -> bool {
        &&& self.frames() == seq![LocatedError { location: at, parser_type: kind }]
        &&& self.cause_text() is None
    }

    open spec fn is_external_error(&self, at: usize, kind: ParserType) -> bool {
        &&& self.frames() == seq![LocatedError { location: at, parser_type: kind }]
        &&& self.cause_text() is Some
    }

    closed spec fn cause_text(&self) -> Option<Seq<char>> {
        match self.cause {
            Some(text) => Some(text@),
            None => None,
        }
    }

    open spec fn extends(&self, inner: &Self, at: usize, kind: ParserType) -> bool {
        &&& self.frames() == inner.frames().push(LocatedError { location: at, parser_type: kind })
        &&& self.cause_text() == inner.cause_text()
    }

    open spec fn location(&self) -> Option<usize> {
        if self.frames().len() > 0 {
            Some(self.frames()[0].location)
        } else {
            None
        }
    }

    fn from_parser_error<T: ?Sized + Sequence>(input: &T, parser_type: ParserType) -> (err: Self)
        ensures
            err.well_formed(),
    {
        let mut stack = FrameStack::new();
        stack.push(LocatedError { location: loc(input), parser_type });
        FabError { stack, cause: None }
    }

    fn from_external_error<T: ?Sized + Sequence, C: Cause>(
        input: &T,
        parser_type: ParserType,
        cause: C,
    ) -> (err: Self)
        ensures
            err.well_formed(),
    {
        let mut stack = FrameStack::new();
        stack.push(LocatedError { location: loc(input), parser_type });
        FabError { stack, cause: Some(cause.describe()) }
    }

    fn add_context<T: ?Sized + Sequence>(&mut self, input: &T, parser_type: ParserType)
        ensures
            final(self).well_formed(),
    {
        self.stack.push(LocatedError { location: loc(input), parser_type });
    }

    fn get_loc(&self) -> (at: Option<usize>)
        ensures
            self.well_formed() ==> at is Some,
    {
        if self.stack.len() > 0 {
            Some(self.stack.get(0).location)
        } else {
            None
        }
    }
}

/// The first `window` items of `input`, or all of them where it has fewer.
pub fn get_from_start<I: ?Sized + Sequence>(input: &I, window: usize) -> (head: &I)
    ensures
        head.items() == input.items().take(
            if window <= input.items().len() {
                window as int
            } else {
                input.items().len() as int
            },
        ),
{
    let mut current_start = input;
    let mut count: usize = 0;
    proof {
        lemma_suffix_of_self(input.items());
    }
    while count < window
        invariant
            count <= window,
            count <= input.items().len(),
            current_start.items() == input.items().skip(count as int),
            is_suffix(current_start.items(), input.items()),
        ensures
            count == window || count == input.items().len(),
        decreases window - count,
    {
        match current_start.try_split_front() {
            Some((_, rest)) => {
                proof {
                    assert(input.items().skip(count as int).drop_first() =~= input.items().skip(
                        count + 1,
                    ));
                    lemma_tail_is_suffix(input.items().take(count + 1), rest.items());
                    assert(input.items().take(count + 1) + rest.items() =~= input.items());
                }
                current_start = rest;
            },
            None => {
                break ;
            },
        }
        count += 1;
    }
    let head = subtract(input, current_start);
    proof {
        let n = count as int;
        assert(head.items() =~= input.items().take(n)) by {
            assert(head.items().len() == n);
            assert((head.items() + current_start.items()).take(n) =~= head.items());
        }
    }
    head
}

/// The last `window` items of `input`, or all of them where it has fewer.
pub fn get_from_end<I: ?Sized + Sequence>(input: &I, window: usize) -> (tail: &I)
    ensures
        tail.items() == input.items().skip(
            if window <= input.items().len() {
                input.items().len() - window
            } else {
                0
            },
        ),
{
    let ghost all = input.items();
    let mut end_index = input.len();
    let mut count: usize = 0;
    proof {
        assert(all.take(all.len() as int) =~= all);
        if all.len() > 0 {
            lemma_extent_grows::<I>(all, all.len() - 1, all.len() as int);
        } else {
            I::extent_of_none();
            assert(all =~= Seq::empty());
        }
    }
    while count < window && end_index > 0
        invariant
            all == input.items(),
            count <= window,
            count <= all.len(),
            end_index <= I::extent(all.take(all.len() - count)),
            count < all.len() ==> I::extent(all.take(all.len() - count - 1)) < end_index,
            count == all.len() ==> end_index == 0,
            end_index == I::extent(all.take(all.len() - count)) || count < window,
        decreases end_index,
    {
        let ghost m = all.len() - count;
        end_index -= 1;
        match input.try_split_at(end_index) {
            Some((head, _)) => {
                proof {
                    assert(I::extent(all.take(m - 1)) == end_index) by {
                        let k = head.items().len() as int;
                        assert(head.items() =~= all.take(k));
                        if k < m - 1 {
                            lemma_extent_grows::<I>(all, k, m - 1);
                        } else if k > m - 1 {
                            lemma_extent_grows::<I>(all, m - 1, k);
                            if k > m {
                                lemma_extent_grows::<I>(all, m, k);
                            }
                        }
                    }
                    if m - 1 > 0 {
                        lemma_extent_grows::<I>(all, m - 2, m - 1);
                    } else {
                        I::extent_of_none();
                        assert(all.take(0) =~= Seq::empty());
                    }
                }
                count += 1;
            },
            None => {
                assert(I::extent(all.take(m - 1)) != end_index);
            },
        }
    }
    proof {
        I::extent_of_none();
        assert(all.take(0) =~= Seq::empty());
    }
    let parts = input.try_split_at(end_index);
    assert(parts is Some) by {
        assert(I::extent(all.take(all.len() - count)) == end_index);
    }
    let (head, tail) = parts.unwrap();
    proof {
        let m = all.len() - count;
        let j = head.items().len() as int;
        assert(head.items() =~= all.take(j));
        assert(tail.items() =~= all.skip(j));
        if j < m {
            lemma_extent_grows::<I>(all, j, m);
        } else if m < j {
            lemma_extent_grows::<I>(all, m, j);
        }
    }
    tail
}

/// `place` is the position of the cursor that has read the first `index`
/// items of `input`.
pub open spec fn is_place_at<I: ?Sized + Sequence>(input: &I, place: usize, index: int) -> bool {
    &&& 0 <= index <= input.items().len()
    &&& place == position(input) + I::extent(input.items().take(index))
}

/// `place` is the position of a cursor into `input`.
pub open spec fn is_place<I: ?Sized + Sequence>(input: &I, place: usize) -> bool {
    exists|index: int| is_place_at(input, place, index)
}

/// The number of items of `input` that lie before `place`.
pub open spec fn index_of_place<I: ?Sized + Sequence>(input: &I, place: usize) -> int {
    choose|index: int| is_place_at(input, place, index)
}

/// Whether `place` is the position of a cursor into `input`.
pub fn holds_place<I: ?Sized + Sequence>(input: &I, place: usize) -> (held: bool)
    ensures
        held == is_place(input, place),
{
    let start = loc(input);
    if place < start {
        return false;
    }
    match input.try_split_at(place - start) {
        Some((head, _)) => {
            proof {
                let j = head.items().len() as int;
                assert(head.items() =~= input.items().take(j));
                assert(is_place_at(input, place, j));
            }
            true
        },
        None => false,
    }
}

/// Up to `window` items of `input` on each side of `place`: those before
/// it and those after it.
pub open spec fn context_of<I: ?Sized + Sequence>(input: &I, place: usize, window: usize) -> (
    Seq<I::Item>,
    Seq<I::Item>,
) {
    let index = index_of_place(input, place);
    let all = input.items();
    (
        all.take(index).skip(
            if window <= index {
                index - window
            } else {
                0
            },
        ),
        all.skip(index).take(
            if window <= all.len() - index {
                window as int
            } else {
                all.len() - index
            },
        ),
    )
}

/// Up to `window` items of `input` on each side of `place`: those before
/// it and those after it.
pub fn get_surrounding_context<'a, I: ?Sized + Sequence>(
    input: &'a I,
    place: usize,
    window: usize,
) -> (around: (&'a I, &'a I))
    requires
        is_place(input, place),
    ensures
        around.0.items() == context_of(input, place, window).0,
        around.1.items() == context_of(input, place, window).1,
{
    let ghost index = index_of_place(input, place);
    let start = loc(input);
    let parts = input.try_split_at(place - start);
    assert(parts is Some);
    let (before, after) = parts.unwrap();
    proof {
        let all = input.items();
        let j = before.items().len() as int;
        assert(before.items() =~= all.take(j));
        assert(after.items() =~= all.skip(j));
        if j < index {
            lemma_extent_grows::<I>(all, j, index);
        } else if index < j {
            lemma_extent_grows::<I>(all, index, j);
        }
    }
    (get_from_end(before, window), get_from_start(after, window))
}

/// The name of a kind of parser, as a trace prints it.
pub open spec fn kind_text(kind: ParserType) -> Seq<char> {
    match kind {
        ParserType::Tag => "Tag"@,
        ParserType::Alt => "Alt"@,
        ParserType::Try => "Try"@,
        ParserType::Mapped => "Map"@,
        ParserType::TryMap => "TryMap"@,
        ParserType::Function => "Function"@,
        ParserType::TakeNot => "TakeNot"@,
        ParserType::Repeat => "Repeat"@,
        ParserType::RepeatIter => "RepeatIter"@,
        ParserType::Sequence => "Sequence"@,
        ParserType::Permutation => "Permutation"@,
    }
}

/// The name of a kind of parser, as a trace prints it.
pub fn kind_name(kind: ParserType) -> (name: &'static str)
    ensures
        name@ == kind_text(kind),
{
    match kind {
        ParserType::Tag => "Tag",
        ParserType::Alt => "Alt",
        ParserType::Try => "Try",
        ParserType::Mapped => "Map",
        ParserType::TryMap => "TryMap",
        ParserType::Function => "Function",
        ParserType::TakeNot => "TakeNot",
        ParserType::Repeat => "Repeat",
        ParserType::RepeatIter => "RepeatIter",
        ParserType::Sequence => "Sequence",
        ParserType::Permutation => "Permutation",
    }
}

/// `format!` with `{:?}`: a value as its `Debug` prints it.
#[verifier::external_body]
fn debug_text<T: ?Sized + Debug>(value: &T) -> (text: String) {
    format!("{:?}", value)
}

/// The line of a trace for a frame of kind `kind`, where `before` and
/// `after` are what the input around the frame's place prints as.
pub open spec fn location_line(before: Seq<char>, after: Seq<char>, kind: ParserType) -> Seq<char> {
    "Location ["@ + before + "]^["@ + after + "] from parser "@ + kind_text(kind)
}

/// `text` is what `Debug` prints `value` as.
pub closed spec fn prints_as<T: ?Sized + Debug>(value: &T, text: Seq<char>) -> bool {
    exists|printed: String|
        printed@ == text && #[trigger] call_ensures(debug_text::<T>, (value,), printed)
}

/// `line` is the line of a trace for `frame`: the line for its kind and
/// for what `Debug` prints the input around its place as, with up to
/// `window` items on each side.
pub open spec fn shows_frame<I: ?Sized + Sequence + Debug>(
    line: Seq<char>,
    input: &I,
    frame: LocatedError,
    window: usize,
) -> bool {
    exists|before: &I, after: &I, left: Seq<char>, right: Seq<char>|
        #![trigger prints_as(before, left), prints_as(after, right)]
        {
            &&& before.items() == context_of(input, frame.location, window).0
            &&& after.items() == context_of(input, frame.location, window).1
            &&& prints_as(before, left)
            &&& prints_as(after, right)
            &&& line == location_line(left, right, frame.parser_type)
        }
}

/// The line of a trace for the description `cause` of an outside error.
pub open spec fn cause_line(cause: Seq<char>) -> Seq<char> {
    "From cause ["@ + cause + "]"@
}

impl FabError {
    /// Every frame of the error is at the position of a cursor into
    /// `input`: the error comes from parsing `input`.
    pub open spec fn is_of<I: ?Sized + Sequence>(&self, input: &I) -> bool {
        forall|i: int| 0 <= i < self.frames().len() ==> is_place(input, #[trigger] self.frames()[i].location)
    }

    /// Whether the error comes from parsing `input`, as far as its frames
    /// show.
    pub fn comes_from<I: ?Sized + Sequence>(&self, input: &I) -> (held: bool)
        ensures
            held == self.is_of(input),
    {
        let n = self.stack.len();
        let mut i: usize = 0;
        while i < n
            invariant
                n == self.frames().len(),
                i <= n,
                forall|j: int| 0 <= j < i ==> is_place(input, #[trigger] self.frames()[j].location),
            decreases n - i,
        {
            if !holds_place(input, self.stack.get(i).location) {
                return false;
            }
            i += 1;
        }
        true
    }

    /// The frames of the error, innermost first.
    pub fn stack(&self) -> (frames: Vec<LocatedError>)
        ensures
            frames@ == self.frames(),
    {
        let mut frames: Vec<LocatedError> = Vec::new();
        let n = self.stack.len();
        let mut i: usize = 0;
        while i < n
            invariant
                n == self.frames().len(),
                i <= n,
                frames@ == self.frames().take(i as int),
            decreases n - i,
        {
            frames.push(self.stack.get(i));
            assert(self.frames().take(i + 1) =~= self.frames().take(i as int).push(
                self.frames()[i as int],
            ));
            i += 1;
        }
        assert(self.frames().take(n as int) =~= self.frames());
        frames
    }

    /// The description of the outside error that the error carries, if it
    /// carries one.
    pub fn cause(&self) -> (text: Option<&str>)
        ensures
            match text {
                Some(text) => self.cause_text() == Some(text@),
                None => self.cause_text() is None,
            },
    {
        match &self.cause {
            Some(text) => Some(text.as_str()),
            None => None,
        }
    }

    /// What a trace shows for each frame of the error, from the innermost
    /// to the outermost: up to `window` items of the input before the
    /// frame's place, as many after it, and the frame's kind.
    pub fn contexts<'a, I: ?Sized + Sequence>(&self, parser_input: &'a I, window: usize) -> (shown:
        Vec<(&'a I, &'a I, ParserType)>)
        requires
            self.is_of(parser_input),
        ensures
            shown.len() == self.frames().len(),
            forall|i: int|
                #![trigger shown[i]]
                0 <= i < shown.len() ==> {
                    let frame = self.frames()[i];
                    let around = context_of(parser_input, frame.location, window);
                    &&& shown[i].0.items() == around.0
                    &&& shown[i].1.items() == around.1
                    &&& shown[i].2 == frame.parser_type
                },
    {
        let mut shown: Vec<(&'a I, &'a I, ParserType)> = Vec::new();
        let n = self.stack.len();
        let mut i: usize = 0;
        while i < n
            invariant
                n == self.frames().len(),
                i <= n,
                self.is_of(parser_input),
                shown.len() == i,
                forall|j: int|
                    #![trigger shown[j]]
                    0 <= j < i ==> {
                        let frame = self.frames()[j];
                        let around = context_of(parser_input, frame.location, window);
                        &&& shown[j].0.items() == around.0
                        &&& shown[j].1.items() == around.1
                        &&& shown[j].2 == frame.parser_type
                    },
            decreases n - i,
        {
            let item = self.stack.get(i);
            let (before, after) = get_surrounding_context(parser_input, item.location, window);
            shown.push((before, after, item.parser_type));
            i += 1;
        }
        shown
    }

    /// The trace of the error against the input that it comes from, a line
    /// for each frame from the innermost to the outermost, with up to
    /// `window` items of the input on each side of the frame's place, and a
    /// last line for the cause where the error has one. The input around a
    /// place is what [`FabError::contexts`] gives, and stands in the line as
    /// `Debug` prints it.
    pub fn trace<I: ?Sized + Sequence + Debug>(&self, parser_input: &I, window: usize) -> (lines: Vec<
        String,
    >)
        requires
            self.is_of(parser_input),
        ensures
            lines.len() == self.frames().len() + (if self.cause_text() is Some {
                1nat
            } else {
                0
            }),
            forall|i: int|
                0 <= i < self.frames().len() ==> shows_frame(
                    (#[trigger] lines[i])@,
                    parser_input,
                    self.frames()[i],
                    window,
                ),
            self.cause_text() matches Some(cause) ==> lines[self.frames().len() as int]@
                == cause_line(cause),
    {
        let mut lines: Vec<String> = Vec::new();
        let shown = self.contexts(parser_input, window);
        let n = shown.len();
        let mut i: usize = 0;
        while i < n
            invariant
                n == self.frames().len(),
                n == shown.len(),
                i <= n,
                forall|j: int|
                    #![trigger shown[j]]
                    0 <= j < n ==> {
                        let frame = self.frames()[j];
                        let around = context_of(parser_input, frame.location, window);
                        &&& shown[j].0.items() == around.0
                        &&& shown[j].1.items() == around.1
                        &&& shown[j].2 == frame.parser_type
                    },
                lines.len() == i,
                forall|j: int|
                    0 <= j < i ==> shows_frame(
                        (#[trigger] lines[j])@,
                        parser_input,
                        self.frames()[j],
                        window,
                    ),
            decreases n - i,
        {
            let (before, after, parser_type) = shown[i];
            let shown_before = debug_text(before);
            let shown_after = debug_text(after);
            proof {
                assert(prints_as(before, shown_before@));
                assert(prints_as(after, shown_after@));
            }
            let mut line = String::new();
            line.append("Location [");
            line.append(shown_before.as_str());
            line.append("]^[");
            line.append(shown_after.as_str());
            line.append("] from parser ");
            line.append(kind_name(parser_type));
            proof {
                assert(line@ =~= location_line(shown_before@, shown_after@, parser_type));
                assert(shows_frame(line@, parser_input, self.frames()[i as int], window));
            }
            lines.push(line);
            i += 1;
        }
        match &self.cause {
            Some(cause) => {
                let mut line = String::new();
                line.append("From cause [");
                line.append(cause.as_str());
                line.append("]");
                proof {
                    assert(line@ =~= cause_line(cause@));
                }
                lines.push(line);
            },
            None => {},
        }
        lines
    }
}

} // verus!
