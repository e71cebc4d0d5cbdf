//! A character cursor with lookahead over UTF-8 bytes.
//!
//! The cursor decodes lazily: it asks its decoder for one more character only
//! when a request looks further ahead than it has read so far. What it has
//! read and not yet handed out waits in a buffer.

use crate::error::JsonError;
use crate::text::string_from_chars;
use std::io::Bytes;
use unicode_reader::CodePoints;
use vstd::prelude::*;
use vstd::utf8::{
    decode_utf8, length_of_first_scalar, pop_first_scalar, valid_first_scalar, valid_utf8,
};

verus! {

/// `std::io::Error`, the error of a stream. Nothing is said of what it
/// holds.
#[verifier::external_type_specification]
#[verifier::external_body]
pub struct ExIoError(std::io::Error);

/// `std::io::Bytes`, the bytes of a reader one by one. Nothing is said of
/// what it holds.
#[verifier::external_type_specification]
#[verifier::external_body]
#[verifier::reject_recursive_types(R)]
pub struct ExBytes<R>(Bytes<R>);

/// `unicode_reader::CodePoints`, a decoder that yields the characters of
/// UTF-8 bytes one by one. What it has still to yield is `pending`.
#[verifier::external_type_specification]
#[verifier::external_body]
#[verifier::reject_recursive_types(R)]
pub struct ExCodePoints<R: Iterator<Item = std::io::Result<u8>>>(CodePoints<R>);

/// The items that a decoder has still to yield, in order. A character stands
/// for itself, `None` for an item that the decoder reports as an error.
pub uninterp spec fn pending(decoder: CodePoints<Bytes<&[u8]>>) -> Seq<Option<char>>;

/// Each character as an item that decoded well.
pub open spec fn decoded(chars: Seq<char>) -> Seq<Option<char>> {
    chars.map_values(|c: char| Some(c))
}

/// The characters of `items` that come before its first failed item.
pub open spec fn readable(items: Seq<Option<char>>) -> Seq<char>
    decreases items.len(),
{
    if items.len() == 0 {
        Seq::empty()
    } else {
        match items[0] {
            Some(c) => seq![c] + readable(items.skip(1)),
            None => Seq::empty(),
        }
    }
}

/// Whether some item of `items` is a failure.
pub open spec fn fails(items: Seq<Option<char>>) -> bool {
    readable(items).len() < items.len()
}

/// `items` without its first failed item.
pub open spec fn past_failure(items: Seq<Option<char>>) -> Seq<Option<char>> {
    items.remove(readable(items).len() as int)
}

/// The length of the well-formed front of `bytes`: of the whole characters
/// in UTF-8 that `bytes` start with.
pub open spec fn well_formed_len(bytes: Seq<u8>) -> int
    decreases bytes.len(),
{
    if bytes.len() > 0 && valid_first_scalar(bytes) {
        length_of_first_scalar(bytes) + well_formed_len(pop_first_scalar(bytes))
    } else {
        0
    }
}

/// The well-formed front of `bytes`: what comes before the first byte that
/// is no part of a well-formed character. It is all of `bytes` where they
/// are well-formed UTF-8.
pub open spec fn well_formed_front(bytes: Seq<u8>) -> Seq<u8> {
    bytes.take(well_formed_len(bytes))
}

/// `unicode_reader::CodePoints::from` on a byte slice. The decoder yields,
/// one item each, the characters that the well-formed front of the bytes
/// encodes in UTF-8. It reports an error in the item after them where the
/// bytes go on, and only there.
#[verifier::external_body]
fn decoder_over<'a>(bytes: &'a [u8]) -> (decoder: CodePoints<Bytes<&'a [u8]>>)
    ensures
        readable(pending(decoder)) == decode_utf8(well_formed_front(bytes@)),
        fails(pending(decoder)) <==> !valid_utf8(bytes@),
{
    CodePoints::from(bytes)
}

/// The well-formed front lies within the bytes, and is all of them where
/// they are well-formed UTF-8.
pub proof fn lemma_well_formed_len(bytes: Seq<u8>)
    ensures
        0 <= well_formed_len(bytes) <= bytes.len(),
        valid_utf8(bytes) ==> well_formed_len(bytes) == bytes.len(),
    decreases bytes.len(),
{
    if bytes.len() > 0 && valid_first_scalar(bytes) {
        lemma_well_formed_len(pop_first_scalar(bytes));
    }
}

/// `Iterator::next` of `unicode_reader::CodePoints`: hands out the first
/// pending item, a character or the error reported in its place, and `None`
/// once nothing is pending.
#[verifier::external_body]
fn next_item<'a>(decoder: &mut CodePoints<Bytes<&'a [u8]>>) -> (item: Option<
    Result<char, std::io::Error>,
>)
    ensures
        pending(*old(decoder)).len() == 0 ==> item is None && pending(*final(decoder)) == pending(
            *old(decoder),
        ),
        pending(*old(decoder)).len() > 0 ==> pending(*final(decoder)) == pending(
            *old(decoder),
        ).skip(1) && match pending(*old(decoder))[0] {
            Some(c) => item == Some(Ok::<char, std::io::Error>(c)),
            None => item matches Some(Err(_)),
        },
{
    decoder.next()
}

/// The readable characters are the items before the first failure, and a
/// failure follows them where there is one.
pub proof fn lemma_readable_prefix(items: Seq<Option<char>>)
    ensures
        readable(items).len() <= items.len(),
        forall|i: int| 0 <= i < readable(items).len() ==> items[i] == Some(#[trigger] readable(items)[i]),
        fails(items) ==> items[readable(items).len() as int] is None,
    decreases items.len(),
{
    if items.len() > 0 && items[0] is Some {
        let rest = items.skip(1);
        lemma_readable_prefix(rest);
        assert forall|i: int| 0 <= i < readable(items).len() implies items[i] == Some(
            #[trigger] readable(items)[i],
        ) by {
            if i > 0 {
                assert(rest[i - 1] == items[i]);
                assert(readable(items)[i] == readable(rest)[i - 1]);
            }
        }
        if fails(items) {
            assert(rest[readable(rest).len() as int] == items[readable(items).len() as int]);
        }
    }
}

/// Characters that decoded well are readable, and what follows them decides
/// the rest.
pub proof fn lemma_readable_decoded(chars: Seq<char>, rest: Seq<Option<char>>)
    ensures
        readable(decoded(chars) + rest) == chars + readable(rest),
    decreases chars.len(),
{
    let items = decoded(chars) + rest;
    if chars.len() == 0 {
        assert(items =~= rest);
        assert(chars + readable(rest) =~= readable(rest));
    } else {
        assert(items[0] == Some(chars[0]));
        assert(items.skip(1) =~= decoded(chars.skip(1)) + rest);
        lemma_readable_decoded(chars.skip(1), rest);
        assert(chars + readable(rest) =~= seq![chars[0]] + (chars.skip(1) + readable(rest)));
    }
}

/// Consuming readable characters leaves the rest of them readable, and a
/// failure as far away as it was.
pub proof fn lemma_readable_skip(items: Seq<Option<char>>, n: int)
    requires
        0 <= n <= readable(items).len(),
    ensures
        readable(items.skip(n)) == readable(items).skip(n),
        fails(items.skip(n)) == fails(items),
    decreases n,
{
    lemma_readable_prefix(items);
    if n == 0 {
        assert(items.skip(0) =~= items);
        assert(readable(items).skip(0) =~= readable(items));
    } else {
        lemma_readable_skip(items.skip(1), n - 1);
        assert(items.skip(1).skip(n - 1) =~= items.skip(n));
        assert(readable(items.skip(1)).skip(n - 1) =~= readable(items).skip(n));
    }
}

/// A cursor that looks ahead in a stream of characters without consuming it.
pub struct PeekableCodePoints<'a> {
    /// the decoder that the characters come from
    codepoints: CodePoints<Bytes<&'a [u8]>>,
    /// what was read from the decoder and not yet consumed
    buffer: Vec<char>,
}

impl<'a> View for PeekableCodePoints<'a> {
    type V = Seq<Option<char>>;

    /// The items from the cursor's position to the end of the stream.
    closed spec fn view(&self) -> Seq<Option<char>> {
        decoded(self.buffer@) + pending(self.codepoints)
    }
}

impl<'a> PeekableCodePoints<'a> {
    /// The characters from the cursor's position up to the first failure, or
    /// to the end of the stream where nothing fails.
    pub open spec fn ahead(&self) -> Seq<char> {
        readable(self@)
    }

    /// Whether a failure, and not the end of the stream, follows `ahead()`.
    pub open spec fn broken(&self) -> bool {
        fails(self@)
    }

    /// A cursor at the start of `reader`.
    ///
    /// Ahead of it lie the characters that the well-formed front of the
    /// bytes encodes. The cursor is broken after them where the bytes are
    /// not well-formed UTF-8 as a whole.
    pub fn new(reader: &'a [u8]) -> (cursor: Self)
        ensures
            cursor.ahead() == decode_utf8(well_formed_front(reader@)),
            cursor.broken() <==> !valid_utf8(reader@),
            valid_utf8(reader@) ==> cursor@ == decoded(decode_utf8(reader@)),
    {
        let cursor = PeekableCodePoints { codepoints: decoder_over(reader), buffer: Vec::new() };
        proof {
            assert(cursor@ =~= pending(cursor.codepoints));
            if valid_utf8(reader@) {
                lemma_well_formed_len(reader@);
                assert(well_formed_front(reader@) =~= reader@);
                lemma_readable_prefix(cursor@);
                assert(cursor@ =~= decoded(decode_utf8(reader@)));
            }
        }
        cursor
    }

    /// Reads up to `count` more items into the buffer and says how many
    /// were there to read.
    fn feed_buffer(&mut self, count: usize) -> (fed: Result<usize, JsonError>)
        ensures
            match fed {
                Ok(n) => {
                    &&& final(self)@ == old(self)@
                    &&& n <= count
                    &&& final(self).buffer@.len() == old(self).buffer@.len() + n
                    &&& n < count ==> pending(final(self).codepoints).len() == 0
                },
                Err(e) => {
                    &&& e is Io
                    &&& old(self).broken()
                    &&& old(self).ahead().len() < old(self).buffer@.len() + count
                    &&& final(self)@ == past_failure(old(self)@)
                },
            },
    {
        let mut i: usize = 0;
        while i < count
            invariant
                i <= count,
                self@ == old(self)@,
                self.buffer@.len() == old(self).buffer@.len() + i,
            decreases count - i,
        {
            let ghost before = *self;
            let item = next_item(&mut self.codepoints);
            match item {
                None => {
                    return Ok(i);
                },
                Some(Err(e)) => {
                    proof {
                        let s = old(self)@;
                        let k = before.buffer@.len() as int;
                        lemma_readable_decoded(before.buffer@, pending(before.codepoints));
                        assert(readable(pending(before.codepoints)) =~= Seq::empty());
                        assert(readable(s) =~= before.buffer@);
                        assert(self@ =~= s.remove(k));
                    }
                    return Err(JsonError::Io(e));
                },
                Some(Ok(c)) => {
                    self.buffer.push(c);
                    proof {
                        assert(self@ =~= before@);
                    }
                },
            }
            i += 1;
        }
        Ok(count)
    }

    /// Drops up to `count` characters from the front of the buffer.
    fn discard_buffer(&mut self, count: usize)
        ensures
            count <= old(self).buffer@.len() ==> final(self)@ == old(self)@.skip(count as int),
            count > old(self).buffer@.len() ==> final(self)@ == old(self)@.skip(
                old(self).buffer@.len() as int,
            ),
            final(self).buffer@.len() == if count <= old(self).buffer@.len() {
                old(self).buffer@.len() - count
            } else {
                0
            },
    {
        let actual: usize = if count > self.buffer.len() {
            self.buffer.len()
        } else {
            count
        };
        let ghost before = *self;
        self.buffer = self.buffer.split_off(actual);
        proof {
            assert(self@ =~= before@.skip(actual as int));
        }
    }

    /// Makes sure that the buffer holds the next `count` characters, or
    /// all that are left where the stream ends before that, and says how
    /// many of the `count` are there.
    fn request(&mut self, count: usize) -> (held: Result<usize, JsonError>)
        ensures
            match held {
                Ok(n) => {
                    &&& final(self)@ == old(self)@
                    &&& n <= final(self).buffer@.len()
                    &&& final(self).buffer@.take(n as int) == old(self).ahead().take(n as int)
                    &&& if count <= old(self).ahead().len() {
                        n == count
                    } else {
                        &&& !old(self).broken()
                        &&& n == old(self).ahead().len()
                        &&& n == final(self).buffer@.len()
                        &&& final(self)@.len() == n
                    }
                },
                Err(e) => {
                    &&& e is Io
                    &&& old(self).broken()
                    &&& old(self).ahead().len() < count
                    &&& final(self)@ == past_failure(old(self)@)
                },
            },
    {
        proof {
            lemma_readable_decoded(self.buffer@, pending(self.codepoints));
        }
        if count <= self.buffer.len() {
            proof {
                assert(self.buffer@.take(count as int) =~= self.ahead().take(count as int));
            }
            Ok(count)
        } else {
            let fed = self.feed_buffer(count - self.buffer.len());
            match fed {
                Err(e) => Err(e),
                Ok(_) => {
                    proof {
                        lemma_readable_decoded(self.buffer@, pending(self.codepoints));
                        if self.buffer@.len() < count {
                            assert(self@ =~= decoded(self.buffer@) + pending(self.codepoints));
                            assert(pending(self.codepoints).len() == 0);
                            assert(readable(pending(self.codepoints)) =~= Seq::empty());
                            assert(self.ahead() =~= self.buffer@);
                        }
                        let n = self.buffer@.len() as int;
                        assert(self.buffer@.take(n) =~= self.ahead().take(n));
                    }
                    Ok(self.buffer.len())
                },
            }
        }
    }

    /// The string of the next `count` characters, or of those that are left
    /// where the stream ends before that. Nothing is consumed.
    pub fn peek(&mut self, count: usize) -> (text: Result<String, JsonError>)
        ensures
            match text {
                Ok(t) => {
                    &&& final(self)@ == old(self)@
                    &&& if count <= old(self).ahead().len() {
                        t@ == old(self).ahead().take(count as int)
                    } else {
                        !old(self).broken() && t@ == old(self).ahead()
                    }
                },
                Err(e) => {
                    &&& e is Io
                    &&& old(self).broken()
                    &&& old(self).ahead().len() < count
                    &&& final(self)@ == past_failure(old(self)@)
                },
            },
    {
        match self.request(count) {
            Err(e) => Err(e),
            Ok(n) => {
                let t = string_from_chars(vstd::slice::slice_subrange(self.buffer.as_slice(), 0, n));
                proof {
                    assert(self.buffer@.subrange(0, n as int) =~= self.buffer@.take(n as int));
                    if count > old(self).ahead().len() {
                        assert(old(self).ahead().take(n as int) =~= old(self).ahead());
                    }
                }
                Ok(t)
            },
        }
    }

    /// The string of the next `count` characters, or of those that are left
    /// where the stream ends before that. They are consumed.
    pub fn pop(&mut self, count: usize) -> (text: Result<String, JsonError>)
        ensures
            match text {
                Ok(t) => {
                    if count <= old(self).ahead().len() {
                        &&& t@ == old(self).ahead().take(count as int)
                        &&& final(self)@ == old(self)@.skip(count as int)
                        &&& final(self).ahead() == old(self).ahead().skip(count as int)
                        &&& final(self).broken() == old(self).broken()
                    } else {
                        &&& !old(self).broken()
                        &&& t@ == old(self).ahead()
                        &&& final(self)@ == Seq::<Option<char>>::empty()
                    }
                },
                Err(e) => {
                    &&& e is Io
                    &&& old(self).broken()
                    &&& old(self).ahead().len() < count
                    &&& final(self)@ == past_failure(old(self)@)
                },
            },
    {
        match self.request(count) {
            Err(e) => Err(e),
            Ok(n) => {
                let t = string_from_chars(vstd::slice::slice_subrange(self.buffer.as_slice(), 0, n));
                proof {
                    assert(self.buffer@.subrange(0, n as int) =~= self.buffer@.take(n as int));
                    lemma_readable_skip(old(self)@, n as int);
                    if count > old(self).ahead().len() {
                        assert(old(self).ahead().take(n as int) =~= old(self).ahead());
                        assert(old(self)@.skip(n as int) =~= Seq::<Option<char>>::empty());
                    }
                }
                self.discard_buffer(n);
                Ok(t)
            },
        }
    }

    /// The character `index` places ahead of the cursor, or `None` where the
    /// stream ends before it. Nothing is consumed. A character that is there
    /// is never the last that a `usize` can count to.
    pub fn peek_char(&mut self, index: usize) -> (next: Result<Option<char>, JsonError>)
        ensures
            match next {
                Ok(Some(c)) => {
                    &&& index < old(self).ahead().len()
                    &&& index < usize::MAX
                    &&& c == old(self).ahead()[index as int]
                    &&& final(self)@ == old(self)@
                },
                Ok(None) => {
                    &&& index >= old(self).ahead().len()
                    &&& !old(self).broken()
                    &&& final(self)@ == old(self)@
                },
                Err(e) => {
                    &&& e is Io
                    &&& index >= old(self).ahead().len()
                    &&& old(self).broken()
                    &&& final(self)@ == past_failure(old(self)@)
                },
            },
    {
        match self.request(index) {
            Err(e) => {
                return Err(e);
            },
            Ok(n) => {
                if n < index {
                    return Ok(None);
                }
            },
        }
        if self.buffer.len() <= index {
            proof {
                lemma_readable_decoded(self.buffer@, pending(self.codepoints));
            }
            match self.feed_buffer(1) {
                Err(e) => {
                    return Err(e);
                },
                Ok(fed) => {
                    if fed == 0 {
                        proof {
                            lemma_readable_decoded(self.buffer@, pending(self.codepoints));
                            assert(readable(pending(self.codepoints)) =~= Seq::empty());
                            assert(self.ahead() =~= self.buffer@);
                            assert(self@ =~= decoded(self.buffer@));
                        }
                        return Ok(None);
                    }
                },
            }
        }
        proof {
            lemma_readable_decoded(self.buffer@, pending(self.codepoints));
        }
        assert(index < self.buffer.len() <= usize::MAX);
        Ok(Some(self.buffer[index]))
    }

    /// Consumes the next `count` characters, or those that are left where
    /// the stream ends before that.
    pub fn skip(&mut self, count: usize) -> (skipped: Result<(), JsonError>)
        ensures
            match skipped {
                Ok(_) => {
                    if count <= old(self).ahead().len() {
                        &&& final(self)@ == old(self)@.skip(count as int)
                        &&& final(self).ahead() == old(self).ahead().skip(count as int)
                        &&& final(self).broken() == old(self).broken()
                    } else {
                        !old(self).broken() && final(self)@ == Seq::<Option<char>>::empty()
                    }
                },
                Err(e) => {
                    &&& e is Io
                    &&& old(self).broken()
                    &&& old(self).ahead().len() < count
                    &&& final(self)@ == past_failure(old(self)@)
                },
            },
    {
        match self.request(count) {
            Err(e) => Err(e),
            Ok(n) => {
                proof {
                    lemma_readable_skip(old(self)@, n as int);
                    if count > old(self).ahead().len() {
                        assert(old(self)@.skip(n as int) =~= Seq::<Option<char>>::empty());
                    }
                }
                self.discard_buffer(n);
                Ok(())
            },
        }
    }
}

} // verus!
