//! A simple ASCII protocol.
//!
//! A message is a line of words separated by spaces. Bytes come in as they
//! arrive, in pieces of any size; messages come out as their lines are
//! complete.

use vstd::prelude::*;
use vstd::utf8::{decode_utf8, valid_utf8};

verus! {

/// Takes in bytes and cuts them into messages.
pub struct Parser {
    buffer: Vec<u8>,
    pos: usize,
}

/// The words of one line.
#[derive(Clone, PartialEq, Eq, Debug)]
pub struct Message<'a>(Vec<&'a [u8]>);

/// `core::str::Utf8Error`: why some bytes are no string. It is handed on as
/// it comes; nothing is known of what it holds.
#[verifier::external_type_specification]
#[verifier::external_body]
pub struct ExUtf8Error(core::str::Utf8Error);

/// `std::str::from_utf8`: the string that the bytes spell, if they are UTF-8.
#[verifier::external_body]
fn str_from_utf8<'a>(bytes: &'a [u8]) -> (r: Result<&'a str, core::str::Utf8Error>)
    ensures
        r is Ok <==> valid_utf8(bytes@),
        r matches Ok(s) ==> s@ == decode_utf8(bytes@),
{
    core::str::from_utf8(bytes)
}

/// Where the first line feed stands in the bytes, or their length if there
/// is none.
pub open spec fn spec_line_end(bytes: Seq<u8>) -> int
    decreases bytes.len(),
{
    if bytes.len() == 0 || bytes[0] == 0x0a {
        0
    } else {
        1 + spec_line_end(bytes.subrange(1, bytes.len() as int))
    }
}

/// Where the first word of the bytes ends: at the first space, or at the
/// end of the bytes if there is none.
pub open spec fn spec_word_end(bytes: Seq<u8>) -> int
    decreases bytes.len(),
{
    if bytes.len() == 0 || bytes[0] == 0x20 {
        0
    } else {
        1 + spec_word_end(bytes.subrange(1, bytes.len() as int))
    }
}

/// The words of a line: what stands between the spaces, in order. Spaces
/// that follow one another, and spaces at either end, separate nothing.
pub open spec fn spec_words(line: Seq<u8>) -> Seq<Seq<u8>>
    decreases line.len(),
{
    if line.len() == 0 {
        Seq::empty()
    } else if line[0] == 0x20 {
        spec_words(line.subrange(1, line.len() as int))
    } else {
        let end = spec_word_end(line);
        if 0 < end <= line.len() {
            seq![line.subrange(0, end)] + spec_words(line.subrange(end, line.len() as int))
        } else {
            Seq::empty()
        }
    }
}

proof fn lemma_word_end(bytes: Seq<u8>)
    ensures
        0 <= spec_word_end(bytes) <= bytes.len(),
        forall|i: int| 0 <= i < spec_word_end(bytes) ==> bytes[i] != 0x20,
        spec_word_end(bytes) < bytes.len() ==> bytes[spec_word_end(bytes)] == 0x20,
    decreases bytes.len(),
{
    if bytes.len() > 0 && bytes[0] != 0x20 {
        let rest = bytes.subrange(1, bytes.len() as int);
        lemma_word_end(rest);
        assert forall|i: int| 0 <= i < spec_word_end(bytes) implies bytes[i] != 0x20 by {
            if i > 0 {
                assert(rest[i - 1] == bytes[i]);
            }
        }
        if spec_word_end(bytes) < bytes.len() {
            assert(rest[spec_word_end(rest)] == bytes[spec_word_end(bytes)]);
        }
    }
}

proof fn lemma_line_end(bytes: Seq<u8>)
    ensures
        0 <= spec_line_end(bytes) <= bytes.len(),
        forall|i: int| 0 <= i < spec_line_end(bytes) ==> bytes[i] != 0x0a,
        spec_line_end(bytes) < bytes.len() ==> bytes[spec_line_end(bytes)] == 0x0a,
    decreases bytes.len(),
{
    if bytes.len() > 0 && bytes[0] != 0x0a {
        let rest = bytes.subrange(1, bytes.len() as int);
        lemma_line_end(rest);
        assert forall|i: int| 0 <= i < spec_line_end(bytes) implies bytes[i] != 0x0a by {
            if i > 0 {
                assert(rest[i - 1] == bytes[i]);
            }
        }
        if spec_line_end(bytes) < bytes.len() {
            assert(rest[spec_line_end(rest)] == bytes[spec_line_end(bytes)]);
        }
    }
}

/// A place without the given byte before it, at which the byte stands or
/// the bytes end, is where the search for the byte ends.
proof fn lemma_line_end_is(bytes: Seq<u8>, at: int)
    requires
        0 <= at <= bytes.len(),
        forall|i: int| 0 <= i < at ==> bytes[i] != 0x0a,
        at < bytes.len() ==> bytes[at] == 0x0a,
    ensures
        spec_line_end(bytes) == at,
{
    lemma_line_end(bytes);
    let end = spec_line_end(bytes);
    if end < at {
        assert(bytes[end] != 0x0a);
    } else if at < end {
        assert(bytes[at] != 0x0a);
    }
}

proof fn lemma_word_end_is(bytes: Seq<u8>, at: int)
    requires
        0 <= at <= bytes.len(),
        forall|i: int| 0 <= i < at ==> bytes[i] != 0x20,
        at < bytes.len() ==> bytes[at] == 0x20,
    ensures
        spec_word_end(bytes) == at,
{
    lemma_word_end(bytes);
    let end = spec_word_end(bytes);
    if end < at {
        assert(bytes[end] != 0x20);
    } else if at < end {
        assert(bytes[at] != 0x20);
    }
}

/// The words of a line that starts with spaces are those of what follows
/// the spaces.
proof fn lemma_words_skip_spaces(line: Seq<u8>, n: int)
    requires
        0 <= n <= line.len(),
        forall|i: int| 0 <= i < n ==> line[i] == 0x20,
    ensures
        spec_words(line) == spec_words(line.subrange(n, line.len() as int)),
    decreases n,
{
    if n == 0 {
        assert(line.subrange(0, line.len() as int) =~= line);
    } else {
        let rest = line.subrange(1, line.len() as int);
        assert forall|i: int| 0 <= i < n - 1 implies rest[i] == 0x20 by {
            assert(rest[i] == line[i + 1]);
        }
        lemma_words_skip_spaces(rest, n - 1);
        assert(rest.subrange(n - 1, rest.len() as int) =~= line.subrange(n, line.len() as int));
    }
}

impl<'a> View for Message<'a> {
    type V = Seq<Seq<u8>>;

    closed spec fn view(&self) -> Seq<Seq<u8>> {
        Seq::new(self.0@.len(), |i: int| self.0@[i]@)
    }
}

impl<'a> Message<'a> {
    /// Cuts a line into its words.
    fn new(line: &'a [u8]) -> (r: Message<'a>)
        ensures
            r@ == spec_words(line@),
    {
        let mut args: Vec<&'a [u8]> = Vec::new();
        let len = line.len();
        let mut pos: usize = 0;
        let ghost mut words: Seq<Seq<u8>> = Seq::empty();
        assert(line@.subrange(0, len as int) =~= line@);
        assert(words + spec_words(line@) =~= spec_words(line@));
        loop
            invariant
                pos <= len,
                len == line@.len(),
                words.len() == args@.len(),
                forall|i: int| 0 <= i < words.len() ==> words[i] == (#[trigger] args@[i])@,
                words + spec_words(line@.subrange(pos as int, len as int)) == spec_words(line@),
            decreases len - pos,
        {
            let ghost start = pos;
            while pos < len && line[pos] == 0x20
                invariant
                    start <= pos <= len,
                    len == line@.len(),
                    forall|i: int| start <= i < pos ==> line@[i] == 0x20,
                decreases len - pos,
            {
                pos += 1;
            }
            proof {
                let rest = line@.subrange(start as int, len as int);
                assert forall|i: int| 0 <= i < pos - start implies rest[i] == 0x20 by {
                    assert(rest[i] == line@[start + i]);
                }
                lemma_words_skip_spaces(rest, pos - start);
                assert(rest.subrange(pos - start, rest.len() as int) =~= line@.subrange(
                    pos as int,
                    len as int,
                ));
            }
            if pos == len {
                let found = Message(args);
                assert(found@ =~= words);
                assert(words + Seq::<Seq<u8>>::empty() =~= words);
                return found;
            }
            let mut end = pos;
            while end < len && line[end] != 0x20
                invariant
                    pos <= end <= len,
                    len == line@.len(),
                    forall|i: int| pos <= i < end ==> line@[i] != 0x20,
                decreases len - end,
            {
                end += 1;
            }
            let word = &line[pos..end];
            proof {
                let rest = line@.subrange(pos as int, len as int);
                assert forall|i: int| 0 <= i < end - pos implies rest[i] != 0x20 by {
                    assert(rest[i] == line@[pos + i]);
                }
                if end - pos < rest.len() {
                    assert(rest[end - pos] == line@[end as int]);
                }
                lemma_word_end_is(rest, end - pos);
                assert(rest.subrange(0, end - pos) =~= word@);
                assert(rest.subrange(end - pos, rest.len() as int) =~= line@.subrange(
                    end as int,
                    len as int,
                ));
                assert(words.push(word@) + spec_words(line@.subrange(end as int, len as int))
                    =~= words + spec_words(rest));
                words = words.push(word@);
            }
            args.push(word);
            pos = end;
        }
    }

    /// The number of words in the message.
    pub fn len(&self) -> (r: usize)
        ensures
            r == self@.len(),
    {
        self.0.len()
    }

    /// A word of the message, as bytes.
    pub fn get_bytes(&self, idx: usize) -> (r: &'a [u8])
        requires
            idx < self@.len(),
        ensures
            r@ == self@[idx as int],
    {
        self.0[idx]
    }

    /// A word of the message, as a string, if it is UTF-8.
    pub fn get_str(&self, idx: usize) -> (r: Result<&'a str, core::str::Utf8Error>)
        requires
            idx < self@.len(),
        ensures
            r is Ok <==> valid_utf8(self@[idx as int]),
            r matches Ok(s) ==> s@ == decode_utf8(self@[idx as int]),
    {
        str_from_utf8(self.0[idx])
    }
}

impl Parser {
    #[verifier::type_invariant]
    spec fn well_formed(self) -> bool {
        self.pos <= self.buffer@.len()
    }

    /// The bytes that were taken in and not yet given out in a message.
    pub closed spec fn unread(&self) -> Seq<u8> {
        self.buffer@.subrange(self.pos as int, self.buffer@.len() as int)
    }

    /// Takes in more bytes, after those that are still unread.
    pub fn feed(&mut self, data: &[u8])
        ensures
            final(self).unread() == old(self).unread() + data@,
    {
        proof {
            use_type_invariant(&*self);
        }
        let mut buffer: Vec<u8> = Vec::new();
        crate::bytes::put_bytes(&mut buffer, &self.buffer.as_slice()[self.pos..self.buffer.len()]);
        crate::bytes::put_bytes(&mut buffer, data);
        self.pos = 0;
        self.buffer = buffer;
        assert(self.unread() =~= old(self).unread() + data@);
    }

    /// Gives out the next message, if the bytes taken in hold a whole line:
    /// the words of what stands before the first line feed. The line and
    /// its line feed are then read.
    pub fn next<'a>(&'a mut self) -> (r: Option<Message<'a>>)
        ensures
            ({
                let unread = old(self).unread();
                let end = spec_line_end(unread);
                if end < unread.len() {
                    &&& r matches Some(message) && message@ == spec_words(unread.subrange(0, end))
                    &&& final(self).unread() == unread.subrange(end + 1, unread.len() as int)
                } else {
                    &&& r is None
                    &&& final(self).unread() == unread
                }
            }),
    {
        proof {
            use_type_invariant(&*self);
        }
        // Find next line feed
        let len = self.buffer.len();
        let start = self.pos;
        let mut nl = start;
        while nl < len && self.buffer[nl] != 0x0a
            invariant
                start <= nl <= len,
                len == self.buffer@.len(),
                forall|i: int| start <= i < nl ==> self.buffer@[i] != 0x0a,
            decreases len - nl,
        {
            nl += 1;
        }
        proof {
            let unread = self.unread();
            assert forall|i: int| 0 <= i < nl - start implies unread[i] != 0x0a by {
                assert(unread[i] == self.buffer@[start + i]);
            }
            if nl < len {
                assert(unread[nl - start] == self.buffer@[nl as int]);
            }
            lemma_line_end_is(unread, nl - start);
        }
        if nl == len {
            return None;
        }
        // Update position
        self.pos = nl + 1;

        // Build a Message
        let msg = Message::new(&self.buffer.as_slice()[start..nl]);
        proof {
            let unread = old(self).unread();
            assert(unread.subrange(0, nl - start) =~= self.buffer@.subrange(start as int, nl as int));
            assert(self.unread() =~= unread.subrange(nl - start + 1, unread.len() as int));
        }
        Some(msg)
    }

    /// Tells whether all the bytes taken in have been given out.
    pub fn is_empty(&self) -> (r: bool)
        ensures
            r == (self.unread().len() == 0),
    {
        proof {
            use_type_invariant(self);
        }
        self.pos == self.buffer.len()
    }
}

impl Default for Parser {
    fn default() -> (r: Parser)
        ensures
            r.unread() == Seq::<u8>::empty(),
    {
        let parser = Parser { buffer: Vec::new(), pos: 0 };
        assert(parser.unread() =~= Seq::<u8>::empty());
        parser
    }
}

} // verus!
