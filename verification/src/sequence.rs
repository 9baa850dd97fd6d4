//! What the parsers read: strings and slices, behind one trait.

use vstd::prelude::*;
use vstd::string::StringSliceAdditionalSpecFns;
use vstd::utf8::*;

verus! {

/// `tail` is what is left of `whole` after some of its first items are
/// dropped.
pub open spec fn is_suffix<T>(tail: Seq<T>, whole: Seq<T>) -> bool {
    tail.len() <= whole.len() && tail == whole.skip(whole.len() - tail.len())
}

/// A sequence is a suffix of itself.
pub proof fn lemma_suffix_of_self<T>(whole: Seq<T>)
    ensures
        is_suffix(whole, whole),
{
    assert(whole.skip(0) =~= whole);
}

/// What follows a run of items is a suffix of the whole.
pub proof fn lemma_tail_is_suffix<T>(head: Seq<T>, tail: Seq<T>)
    ensures
        is_suffix(tail, head + tail),
{
    assert((head + tail).skip(head.len() as int) =~= tail);
}

/// A suffix of a suffix is a suffix.
pub proof fn lemma_suffix_of_suffix<T>(a: Seq<T>, b: Seq<T>, c: Seq<T>)
    requires
        is_suffix(a, b),
        is_suffix(b, c),
    ensures
        is_suffix(a, c),
{
    assert(c.skip(c.len() - a.len()) =~= c.skip(c.len() - b.len()).skip(b.len() - a.len()));
}

/// A sequence of items that can be split without copying. Strings are
/// sequences of characters, measured in bytes; slices are sequences of
/// their elements, measured in elements.
pub trait Sequence {
    type Item: Clone;

    /// The items of the sequence, first to last.
    spec fn items(&self) -> Seq<Self::Item>;

    /// The length that [`Sequence::len`] gives to a run of items.
    spec fn extent(items: Seq<Self::Item>) -> nat;

    /// No items have no length.
    proof fn extent_of_none()
        ensures
            Self::extent(Seq::empty()) == 0,
    ;

    /// An item has a length.
    proof fn extent_of_one(item: Self::Item)
        ensures
            Self::extent(seq![item]) >= 1,
    ;

    /// The length of two runs of items, one after the other, is the sum of
    /// their lengths.
    proof fn extent_of_concat(a: Seq<Self::Item>, b: Seq<Self::Item>)
        ensures
            Self::extent(a + b) == Self::extent(a) + Self::extent(b),
    ;

    /// Splits the sequence where its first part is `mid` long. `None` where
    /// the sequence is shorter, or `mid` falls inside an item.
    fn try_split_at<'a>(&'a self, mid: usize) -> (res: Option<(&'a Self, &'a Self)>)
        ensures
            match res {
                Some((head, tail)) => {
                    &&& head.items() + tail.items() == self.items()
                    &&& Self::extent(head.items()) == mid
                },
                None => forall|k: int|
                    0 <= k <= self.items().len() ==> #[trigger] Self::extent(self.items().take(k))
                        != mid,
            },
    ;

    /// Splits off the first item. `None` where the sequence is empty.
    fn try_split_front<'a>(&'a self) -> (res: Option<(Self::Item, &'a Self)>)
        ensures
            match res {
                Some((first, rest)) => {
                    &&& self.items().len() > 0
                    &&& cloned(self.items()[0], first)
                    &&& rest.items() == self.items().drop_first()
                },
                None => self.items().len() == 0,
            },
    ;

    /// The length of the sequence: in bytes for a string, in elements for
    /// a slice.
    fn len(&self) -> (n: usize)
        ensures
            n == Self::extent(self.items()),
    ;

    /// Whether the sequence has no items.
    fn is_empty(&self) -> (b: bool)
        ensures
            b == (self.items().len() == 0),
    ;
}

impl<T: Clone> Sequence for [T] {
    type Item = T;

    open spec fn items(&self) -> Seq<T> {
        self@
    }

    open spec fn extent(items: Seq<T>) -> nat {
        items.len()
    }

    proof fn extent_of_none() {
    }

    proof fn extent_of_one(item: T) {
    }

    proof fn extent_of_concat(a: Seq<T>, b: Seq<T>) {
    }

    fn try_split_at<'a>(&'a self, mid: usize) -> (res: Option<(&'a [T], &'a [T])>) {
        if mid > self.len() {
            None
        } else {
            let (head, tail) = self.split_at(mid);
            assert(head@ + tail@ =~= self@);
            Some((head, tail))
        }
    }

    fn try_split_front<'a>(&'a self) -> (res: Option<(T, &'a [T])>) {
        if self.len() == 0 {
            None
        } else {
            let (_, rest) = self.split_at(1);
            assert(rest@ =~= self@.drop_first());
            Some((self[0].clone(), rest))
        }
    }

    fn len(&self) -> (n: usize) {
        <[T]>::len(self)
    }

    fn is_empty(&self) -> (b: bool) {
        <[T]>::len(self) == 0
    }
}

/// A run of items is at least as long as the number of its items.
pub proof fn lemma_extent_covers<I: ?Sized + Sequence>(items: Seq<I::Item>)
    ensures
        I::extent(items) >= items.len(),
    decreases items.len(),
{
    if items.len() == 0 {
        I::extent_of_none();
        assert(items =~= Seq::empty());
    } else {
        let first = seq![items[0]];
        let rest = items.drop_first();
        assert(items =~= first + rest);
        I::extent_of_one(items[0]);
        I::extent_of_concat(first, rest);
        lemma_extent_covers::<I>(rest);
    }
}

/// The length of a sequence is that of its first `k` items and that of the
/// others.
pub proof fn lemma_extent_split<I: ?Sized + Sequence>(items: Seq<I::Item>, k: int)
    requires
        0 <= k <= items.len(),
    ensures
        I::extent(items) == I::extent(items.take(k)) + I::extent(items.skip(k)),
{
    assert(items =~= items.take(k) + items.skip(k));
    I::extent_of_concat(items.take(k), items.skip(k));
}

/// A longer prefix has a greater length.
pub proof fn lemma_extent_grows<I: ?Sized + Sequence>(items: Seq<I::Item>, j: int, k: int)
    requires
        0 <= j < k <= items.len(),
    ensures
        I::extent(items.take(j)) < I::extent(items.take(k)),
{
    let more = items.take(k);
    lemma_extent_split::<I>(more, j);
    assert(more.take(j) =~= items.take(j));
    lemma_extent_covers::<I>(more.skip(j));
}

/// The part of `orig` that was read to arrive at `rest`.
pub fn subtract<'a, I: ?Sized + Sequence>(orig: &'a I, rest: &'a I) -> (read: &'a I)
    requires
        is_suffix(rest.items(), orig.items()),
    ensures
        read.items() + rest.items() == orig.items(),
{
    let ghost k = orig.items().len() - rest.items().len();
    proof {
        lemma_extent_split::<I>(orig.items(), k);
    }
    let size = orig.len() - rest.len();
    let parts = orig.try_split_at(size);
    assert(parts is Some) by {
        assert(I::extent(orig.items().take(k)) == size);
    }
    let (read, tail) = parts.unwrap();
    proof {
        let j = read.items().len() as int;
        assert(read.items() =~= orig.items().take(j));
        assert(tail.items() =~= orig.items().skip(j));
        if j < k {
            lemma_extent_grows::<I>(orig.items(), j, k);
        } else if k < j {
            lemma_extent_grows::<I>(orig.items(), k, j);
        }
    }
    read
}

/// `char::len_utf8` gives the number of bytes of the UTF-8 encoding of a
/// character.
pub assume_specification[ char::len_utf8 ](c: char) -> (n: usize)
    ensures
        n == encode_scalar(c as u32).len(),
;

impl Sequence for str {
    type Item = char;

    open spec fn items(&self) -> Seq<char> {
        self@
    }

    open spec fn extent(items: Seq<char>) -> nat {
        encode_utf8(items).len()
    }

    proof fn extent_of_none() {
    }

    proof fn extent_of_one(item: char) {
        lemma_encoding_of_one(item);
    }

    proof fn extent_of_concat(a: Seq<char>, b: Seq<char>) {
        lemma_encoding_of_concat(a, b);
    }

    fn try_split_at<'a>(&'a self, mid: usize) -> (res: Option<(&'a str, &'a str)>) {
        proof {
            encode_utf8_valid_utf8(self@);
        }
        if self.is_char_boundary(mid) {
            let (head, tail) = self.split_at(mid);
            proof {
                lemma_split_views(self@, head@, tail@, mid as int);
            }
            Some((head, tail))
        } else {
            proof {
                assert forall|k: int| 0 <= k <= self@.len() implies #[trigger] Self::extent(
                    self@.take(k),
                ) != mid by {
                    lemma_prefix_is_boundary(self@, k);
                }
            }
            None
        }
    }

    fn try_split_front<'a>(&'a self) -> (res: Option<(char, &'a str)>) {
        let mut chars = self.chars();
        match chars.next() {
            Some(first) => {
                let n = first.len_utf8();
                proof {
                    broadcast use vstd::string::group_string_axioms;
                    assert(first == self@[0]);
                    encode_utf8_valid_utf8(self@);
                    lemma_prefix_is_boundary(self@, 1);
                    lemma_encoding_of_one(first);
                    assert(self@.take(1) =~= seq![first]);
                }
                let (head, rest) = self.split_at(n);
                proof {
                    lemma_split_views(self@, head@, rest@, n as int);
                    lemma_encoding_of_one(first);
                    assert(self@.take(1) =~= seq![first]);
                    lemma_same_encoding(head@, self@.take(1));
                    assert(rest@ =~= self@.drop_first()) by {
                        assert(self@ =~= self@.take(1) + self@.drop_first());
                        assert(head@ + rest@ == self@);
                        assert(head@.len() == 1);
                        assert((head@ + rest@).drop_first() =~= rest@);
                    }
                }
                Some((first, rest))
            },
            None => {
                proof {
                    broadcast use vstd::string::group_string_axioms;
                }
                None
            },
        }
    }

    fn len(&self) -> (n: usize) {
        let bytes = self.as_bytes();
        bytes.len()
    }

    fn is_empty(&self) -> (b: bool) {
        str::is_empty(self)
    }
}

/// One character takes at least one byte.
pub proof fn lemma_encoding_of_one(c: char)
    ensures
        encode_utf8(seq![c]) == encode_scalar(c as u32),
        encode_scalar(c as u32).len() >= 1,
{
    reveal_with_fuel(encode_utf8, 2);
    assert(seq![c].drop_first() =~= Seq::<char>::empty());
    assert(encode_scalar(c as u32) + Seq::<u8>::empty() =~= encode_scalar(c as u32));
}

/// The encoding of two runs of characters, one after the other, is the
/// encoding of the first followed by that of the second.
pub proof fn lemma_encoding_of_concat(a: Seq<char>, b: Seq<char>)
    ensures
        encode_utf8(a + b) == encode_utf8(a) + encode_utf8(b),
    decreases a.len(),
{
    if a.len() == 0 {
        assert(a + b =~= b);
        assert(encode_utf8(a) + encode_utf8(b) =~= encode_utf8(b));
    } else {
        assert((a + b).drop_first() =~= a.drop_first() + b);
        lemma_encoding_of_concat(a.drop_first(), b);
        assert(encode_utf8(a + b) =~= encode_utf8(a) + encode_utf8(b));
    }
}

/// Two runs of characters with one encoding are one run.
pub proof fn lemma_same_encoding(a: Seq<char>, b: Seq<char>)
    requires
        encode_utf8(a) == encode_utf8(b),
    ensures
        a == b,
{
    encode_utf8_decode_utf8(a);
    encode_utf8_decode_utf8(b);
}

/// The encoding of the first `k` characters ends on a character boundary
/// of the encoding of them all.
pub proof fn lemma_prefix_is_boundary(chars: Seq<char>, k: int)
    requires
        0 <= k <= chars.len(),
    ensures
        is_char_boundary(encode_utf8(chars), encode_utf8(chars.take(k)).len() as int),
    decreases k,
{
    encode_utf8_valid_utf8(chars);
    if k == 0 {
        assert(chars.take(0) =~= Seq::<char>::empty());
    } else {
        let bytes = encode_utf8(chars);
        encode_utf8_first_scalar(chars);
        assert(pop_first_scalar(bytes) =~= encode_utf8(chars.drop_first()));
        lemma_prefix_is_boundary(chars.drop_first(), k - 1);
        assert(chars.take(k).drop_first() =~= chars.drop_first().take(k - 1));
        assert(chars.take(k)[0] == chars[0]);
        lemma_encoding_of_one(chars[0]);
    }
}

/// Where the encoding of `whole` is cut at byte `mid` into the encodings
/// of `head` and `tail`, `whole` is `head` followed by `tail`.
pub proof fn lemma_split_views(whole: Seq<char>, head: Seq<char>, tail: Seq<char>, mid: int)
    requires
        is_char_boundary(encode_utf8(whole), mid),
        0 <= mid <= encode_utf8(whole).len(),
        encode_utf8(head) =~= encode_utf8(whole).subrange(0, mid),
        encode_utf8(tail) =~= encode_utf8(whole).subrange(mid, encode_utf8(whole).len() as int),
    ensures
        head + tail == whole,
        encode_utf8(head).len() == mid,
{
    let bytes = encode_utf8(whole);
    encode_utf8_valid_utf8(whole);
    decode_utf8_split(bytes, mid);
    encode_utf8_decode_utf8(whole);
    encode_utf8_decode_utf8(head);
    encode_utf8_decode_utf8(tail);
    assert(head + tail =~= whole);
}

} // verus!
