//! The fixed-capacity send buffer.
//!
//! A message is written from its last byte towards its first: the content of
//! an element is in the buffer before its length is known, and the length
//! field and the tag are then put in front of it.

use vstd::prelude::*;
use crate::error::SnmpError;
use crate::length::{be_bytes, encode_length, lemma_be_bytes_len};
use crate::integer::{int_bytes, lemma_int_round_trip, lemma_pow256_8};
use crate::message::encode_integer;
use crate::oid::{
    base128,
    base128_lead,
    encode_arcs,
    encode_oid,
    valid_oid,
    lemma_encode_arcs_split,
};
use crate::tlv::encode_tlv;
use crate::value::{TAG_INTEGER, TAG_OBJECT_IDENTIFIER};

verus! {

/// Capacity of the send buffer, and of a datagram, in bytes.
pub const BUFFER_SIZE: usize = 4096;

/// A buffer of fixed capacity that is filled from its end towards its start.
/// Its view is what has been written, first byte first.
pub struct Buf {
    len: usize,
    buf: [u8; 4096],
}

impl View for Buf {
    type V = Seq<u8>;

    closed spec fn view(&self) -> Seq<u8> {
        if self.len <= BUFFER_SIZE {
            self.buf@.subrange(BUFFER_SIZE - self.len, BUFFER_SIZE as int)
        } else {
            Seq::<u8>::empty()
        }
    }
}

/// What a write that may run out of room ensures: on success `after` is
/// `added` in front of `before`; it fails exactly where `added` does not fit,
/// with `BufferExhausted`, and then nothing was written.
pub open spec fn pushed(
    r: Result<(), SnmpError>,
    before: Seq<u8>,
    added: Seq<u8>,
    after: Seq<u8>,
) -> bool {
    match r {
        Ok(()) => after == added + before && before.len() + added.len() <= BUFFER_SIZE,
        Err(e) => e == SnmpError::BufferExhausted && before.len() + added.len() > BUFFER_SIZE
            && after == before,
    }
}

/// A buffer never holds more than its capacity.
pub proof fn lemma_capacity(buf: &Buf)
    ensures
        buf@.len() <= BUFFER_SIZE,
{
}

/// Dropping what was put in front gives back what was there before.
pub proof fn lemma_undo(added: Seq<u8>, before: Seq<u8>)
    ensures
        (added + before).skip((added + before).len() - before.len()) == before,
{
    assert((added + before).skip((added + before).len() - before.len()) =~= before);
}

/// A tag and a length field in front of the content they describe are the
/// element in front of what was there before.
pub proof fn lemma_element(tag: u8, content: Seq<u8>, before: Seq<u8>)
    ensures
        (seq![tag] + encode_length(content.len())) + (content + before) == encode_tlv(tag, content)
            + before,
        encode_tlv(tag, content).len() == 1 + encode_length(content.len()).len() + content.len(),
{
    assert((seq![tag] + encode_length(content.len())) + (content + before) =~= encode_tlv(
        tag,
        content,
    ) + before);
}

impl Default for Buf {
    /// An empty buffer.
    fn default() -> (b: Buf)
        ensures
            b@ == Seq::<u8>::empty(),
    {
        Buf::new()
    }
}

impl Buf {
    #[verifier::type_invariant]
    spec fn inv(self) -> bool {
        self.len <= BUFFER_SIZE
    }

    /// An empty buffer.
    pub fn new() -> (b: Buf)
        ensures
            b@ == Seq::<u8>::empty(),
    {
        Buf { len: 0, buf: [0u8; 4096] }
    }

    /// Forgets what was written.
    pub fn reset(&mut self)
        ensures
            final(self)@ == Seq::<u8>::empty(),
    {
        self.len = 0;
    }

    /// Number of bytes written.
    pub fn len(&self) -> (n: usize)
        ensures
            n == self@.len(),
            n <= BUFFER_SIZE,
    {
        proof {
            use_type_invariant(self);
        }
        self.len
    }

    /// The written bytes.
    pub fn as_slice(&self) -> (s: &[u8])
        ensures
            s@ == self@,
    {
        proof {
            use_type_invariant(self);
        }
        vstd::slice::slice_subrange(self.buf.as_slice(), BUFFER_SIZE - self.len, BUFFER_SIZE)
    }

    /// Goes back to the last `keep` bytes written, and reports the failure
    /// that made this necessary.
    pub(crate) fn give_up(&mut self, keep: usize, e: SnmpError) -> (r: Result<(), SnmpError>)
        requires
            keep <= old(self)@.len(),
        ensures
            r == Err::<(), SnmpError>(e),
            final(self)@ == old(self)@.skip(old(self)@.len() - keep),
            keep == 0 ==> final(self)@ == Seq::<u8>::empty(),
    {
        proof {
            use_type_invariant(&*self);
        }
        self.len = keep;
        assert(self@ =~= old(self)@.skip(old(self)@.len() - keep));
        Err(e)
    }

    /// Puts one byte in front of what is written, if there is room.
    pub fn push_byte(&mut self, b: u8) -> (r: Result<(), SnmpError>)
        ensures
            pushed(r, old(self)@, seq![b], final(self)@),
    {
        proof {
            use_type_invariant(&*self);
        }
        if self.len >= BUFFER_SIZE {
            return Err(SnmpError::BufferExhausted);
        }
        let at: usize = BUFFER_SIZE - self.len - 1;
        self.buf[at] = b;
        self.len = self.len + 1;
        assert(self@ =~= seq![b] + old(self)@);
        Ok(())
    }

    /// Puts a run of bytes in front of what is written, if there is room.
    pub fn push_chunk(&mut self, chunk: &[u8]) -> (r: Result<(), SnmpError>)
        ensures
            pushed(r, old(self)@, chunk@, final(self)@),
    {
        proof {
            use_type_invariant(&*self);
        }
        let n: usize = chunk.len();
        if n > BUFFER_SIZE - self.len {
            return Err(SnmpError::BufferExhausted);
        }
        let start: usize = BUFFER_SIZE - self.len - n;
        let ghost before = self@;
        let mut i: usize = 0;
        while i < n
            invariant
                i <= n,
                n == chunk@.len(),
                self.len == old(self).len,
                start + n + self.len == BUFFER_SIZE,
                self.buf@.subrange(BUFFER_SIZE - self.len, BUFFER_SIZE as int) == before,
                self.buf@.subrange(start as int, start + i) == chunk@.subrange(0, i as int),
            decreases n - i,
        {
            self.buf[start + i] = chunk[i];
            i = i + 1;
            assert(self.buf@.subrange(BUFFER_SIZE - self.len, BUFFER_SIZE as int) =~= before);
            assert(self.buf@.subrange(start as int, start + i) =~= chunk@.subrange(0, i as int));
        }
        self.len = self.len + n;
        assert(chunk@.subrange(0, n as int) =~= chunk@);
        assert(self@ =~= chunk@ + before);
        Ok(())
    }

    /// Puts the length field for a content of `n` bytes in front of what is
    /// written, if there is room.
    pub fn push_length(&mut self, n: usize) -> (r: Result<(), SnmpError>)
        ensures
            pushed(r, old(self)@, encode_length(n as nat), final(self)@),
    {
        if n < 128 {
            return self.push_byte(n as u8);
        }
        let mark: usize = self.len();
        let ghost before = self@;
        let ghost whole = be_bytes(n as nat);
        let ghost mut tail = Seq::<u8>::empty();
        let mut rest: usize = n;
        let mut count: u8 = 0;
        proof {
            lemma_pow256_8();
            lemma_be_bytes_len(n as nat, 8);
            assert(be_bytes(rest as nat) + tail =~= whole);
            assert(self@ =~= tail + before);
        }
        while rest > 0
            invariant
                before == old(self)@,
                mark == before.len(),
                whole == be_bytes(n as nat),
                whole.len() <= 8,
                be_bytes(rest as nat) + tail == whole,
                count == tail.len(),
                self@ == tail + before,
                n >= 128,
            decreases rest,
        {
            let low: u8 = (rest % 256) as u8;
            match self.push_byte(low) {
                Ok(()) => {},
                Err(e) => {
                    proof {
                        lemma_undo(tail, before);
                    }
                    return self.give_up(mark, e);
                },
            }
            proof {
                assert(be_bytes((rest / 256) as nat) + (seq![low] + tail) =~= be_bytes(rest as nat)
                    + tail);
                tail = seq![low] + tail;
            }
            rest = rest / 256;
            count = count + 1;
        }
        assert(tail =~= whole);
        let lead: u8 = 128 + count;
        match self.push_byte(lead) {
            Ok(()) => {
                assert(seq![lead] + (tail + before) =~= encode_length(n as nat) + before);
                Ok(())
            },
            Err(e) => {
                proof {
                    lemma_undo(tail, before);
                }
                self.give_up(mark, e)
            },
        }
    }

    /// Puts a tag and the length field for a content of `n` bytes in front of
    /// what is written. With the content written just before, this completes
    /// an element.
    pub fn push_header(&mut self, tag: u8, n: usize) -> (r: Result<(), SnmpError>)
        ensures
            pushed(r, old(self)@, seq![tag] + encode_length(n as nat), final(self)@),
    {
        let mark: usize = self.len();
        match self.push_length(n) {
            Ok(()) => {},
            Err(e) => {
                return Err(e);
            },
        }
        match self.push_byte(tag) {
            Ok(()) => {
                assert(seq![tag] + (encode_length(n as nat) + old(self)@) =~= (seq![tag]
                    + encode_length(n as nat)) + old(self)@);
                Ok(())
            },
            Err(e) => {
                proof {
                    lemma_undo(encode_length(n as nat), old(self)@);
                }
                self.give_up(mark, e)
            },
        }
    }

    /// Completes an element: puts the tag and the length field in front of
    /// the content, which is what was written since the buffer held `mark`
    /// bytes. Where they do not fit, the content is taken back too.
    pub(crate) fn close_element(&mut self, tag: u8, mark: usize, Ghost(content): Ghost<Seq<u8>>) -> (r:
        Result<(), SnmpError>)
        requires
            mark + content.len() == old(self)@.len(),
            old(self)@.subrange(0, content.len() as int) == content,
        ensures
            pushed(
                r,
                old(self)@.skip(content.len() as int),
                encode_tlv(tag, content),
                final(self)@,
            ),
    {
        let ghost before = self@.skip(content.len() as int);
        proof {
            assert(self@ =~= content + before);
            lemma_element(tag, content, before);
            lemma_undo(content, before);
        }
        match self.push_header(tag, self.len() - mark) {
            Ok(()) => Ok(()),
            Err(e) => self.give_up(mark, e),
        }
    }

    /// Puts the minimal two's-complement bytes of `n` in front of what is
    /// written.
    pub fn push_int_bytes(&mut self, n: i128) -> (r: Result<(), SnmpError>)
        ensures
            pushed(r, old(self)@, int_bytes(n as int), final(self)@),
    {
        let mark: usize = self.len();
        let ghost before = self@;
        let ghost mut tail = Seq::<u8>::empty();
        let mut rest: i128 = n;
        proof {
            assert(int_bytes(rest as int) + tail =~= int_bytes(n as int));
            assert(self@ =~= tail + before);
        }
        while rest < -128 || rest > 127
            invariant
                before == old(self)@,
                mark == before.len(),
                int_bytes(rest as int) + tail == int_bytes(n as int),
                self@ == tail + before,
            decreases
                    (if rest >= 0 {
                        rest as int
                    } else {
                        -rest as int
                    }),
        {
            let low: u8;
            let quotient: i128;
            if rest >= 0 {
                low = (rest % 256) as u8;
                quotient = rest / 256;
            } else {
                // floor division of a negative number, by way of `-(rest + 1)`
                let mirror: i128 = -(rest + 1);
                low = (255 - mirror % 256) as u8;
                quotient = -(mirror / 256) - 1;
            }
            assert(quotient == (rest as int) / 256 && low == (rest as int) % 256);
            proof {
                lemma_int_round_trip(rest as int);
            }
            match self.push_byte(low) {
                Ok(()) => {},
                Err(e) => {
                    proof {
                        lemma_undo(tail, before);
                    }
                    return self.give_up(mark, e);
                },
            }
            proof {
                assert(int_bytes(quotient as int) + (seq![low] + tail) =~= int_bytes(rest as int)
                    + tail);
                tail = seq![low] + tail;
            }
            rest = quotient;
        }
        let last: u8 = if rest >= 0 {
            rest as u8
        } else {
            (rest + 256) as u8
        };
        match self.push_byte(last) {
            Ok(()) => {
                assert(seq![last] + (tail + before) =~= int_bytes(n as int) + before);
                Ok(())
            },
            Err(e) => {
                proof {
                    lemma_undo(tail, before);
                }
                self.give_up(mark, e)
            },
        }
    }

    /// Puts an integer element in front of what is written.
    pub fn push_integer(&mut self, n: i64) -> (r: Result<(), SnmpError>)
        ensures
            pushed(r, old(self)@, encode_integer(n as int), final(self)@),
    {
        self.push_int_element(TAG_INTEGER, n as i128)
    }

    /// Puts an element with the given tag and the bytes of `n` as content in
    /// front of what is written.
    pub fn push_int_element(&mut self, tag: u8, n: i128) -> (r: Result<(), SnmpError>)
        ensures
            pushed(r, old(self)@, encode_tlv(tag, int_bytes(n as int)), final(self)@),
    {
        let mark: usize = self.len();
        match self.push_int_bytes(n) {
            Ok(()) => {},
            Err(e) => {
                proof {
                    lemma_element(tag, int_bytes(n as int), old(self)@);
                }
                return Err(e);
            },
        }
        let ghost content = int_bytes(n as int);
        proof {
            assert(self@.subrange(0, content.len() as int) =~= content);
            assert(self@.skip(content.len() as int) =~= old(self)@);
        }
        self.close_element(tag, mark, Ghost(content))
    }

    /// Puts an element with the given tag and content in front of what is
    /// written.
    pub fn push_bytes_element(&mut self, tag: u8, content: &[u8]) -> (r: Result<(), SnmpError>)
        ensures
            pushed(r, old(self)@, encode_tlv(tag, content@), final(self)@),
    {
        let mark: usize = self.len();
        match self.push_chunk(content) {
            Ok(()) => {},
            Err(e) => {
                proof {
                    lemma_element(tag, content@, old(self)@);
                }
                return Err(e);
            },
        }
        proof {
            assert(self@.subrange(0, content@.len() as int) =~= content@);
            assert(self@.skip(content@.len() as int) =~= old(self)@);
        }
        self.close_element(tag, mark, Ghost(content@))
    }

    /// Puts the group of one arc in front of what is written.
    pub fn push_arc(&mut self, arc: u32) -> (r: Result<(), SnmpError>)
        ensures
            pushed(r, old(self)@, base128(arc as nat), final(self)@),
    {
        let mark: usize = self.len();
        let ghost before = self@;
        match self.push_byte((arc % 128) as u8) {
            Ok(()) => {},
            Err(e) => {
                return Err(e);
            },
        }
        let ghost mut tail = seq![(arc % 128) as u8];
        let mut rest: u32 = arc / 128;
        proof {
            assert(base128_lead(rest as nat) + tail =~= base128(arc as nat));
        }
        while rest > 0
            invariant
                before == old(self)@,
                mark == before.len(),
                base128_lead(rest as nat) + tail == base128(arc as nat),
                self@ == tail + before,
            decreases rest,
        {
            let digit: u8 = (128 + rest % 128) as u8;
            match self.push_byte(digit) {
                Ok(()) => {},
                Err(e) => {
                    proof {
                        lemma_undo(tail, before);
                    }
                    return self.give_up(mark, e);
                },
            }
            proof {
                assert(base128_lead((rest / 128) as nat) + (seq![digit] + tail) =~= base128_lead(
                    rest as nat,
                ) + tail);
                tail = seq![digit] + tail;
            }
            rest = rest / 128;
        }
        proof {
            assert(tail =~= base128(arc as nat));
            lemma_capacity(self);
        }
        Ok(())
    }

    /// Puts the content bytes of an object identifier in front of what is
    /// written.
    pub fn push_oid_bytes(&mut self, arcs: &[u32]) -> (r: Result<(), SnmpError>)
        requires
            valid_oid(arcs@),
        ensures
            pushed(r, old(self)@, encode_oid(arcs@), final(self)@),
    {
        let mark: usize = self.len();
        let ghost before = self@;
        let n: usize = arcs.len();
        let mut i: usize = n;
        proof {
            assert(arcs@.subrange(n as int, n as int) =~= Seq::<u32>::empty());
            assert(self@ =~= encode_arcs(arcs@.subrange(i as int, n as int)) + before);
        }
        while i > 2
            invariant
                before == old(self)@,
                mark == before.len(),
                n == arcs@.len(),
                2 <= i <= n,
                self@ == encode_arcs(arcs@.subrange(i as int, n as int)) + before,
            decreases i,
        {
            let ghost done = arcs@.subrange(i as int, n as int);
            let ghost next = arcs@.subrange(i - 1, n as int);
            proof {
                assert(next.skip(1) =~= done);
                assert(next[0] == arcs@[i - 1]);
                let groups = arcs@.skip(2);
                lemma_encode_arcs_split(groups, i - 3);
                assert(groups.subrange(i - 3, groups.len() as int) =~= next);
            }
            match self.push_arc(arcs[i - 1]) {
                Ok(()) => {},
                Err(e) => {
                    proof {
                        lemma_undo(encode_arcs(done), before);
                    }
                    return self.give_up(mark, e);
                },
            }
            i = i - 1;
            assert(self@ =~= encode_arcs(next) + before);
        }
        assert(arcs@.subrange(2, n as int) =~= arcs@.skip(2));
        let first: u8 = (arcs[0] * 40 + arcs[1]) as u8;
        match self.push_byte(first) {
            Ok(()) => {
                assert(seq![first] + (encode_arcs(arcs@.skip(2)) + before) =~= encode_oid(arcs@)
                    + before);
                Ok(())
            },
            Err(e) => {
                proof {
                    lemma_undo(encode_arcs(arcs@.skip(2)), before);
                }
                self.give_up(mark, e)
            },
        }
    }

    /// Puts an object identifier element in front of what is written.
    pub fn push_object_identifier(&mut self, arcs: &[u32]) -> (r: Result<(), SnmpError>)
        requires
            valid_oid(arcs@),
        ensures
            pushed(
                r,
                old(self)@,
                encode_tlv(TAG_OBJECT_IDENTIFIER, encode_oid(arcs@)),
                final(self)@,
            ),
    {
        let mark: usize = self.len();
        match self.push_oid_bytes(arcs) {
            Ok(()) => {},
            Err(e) => {
                proof {
                    lemma_element(TAG_OBJECT_IDENTIFIER, encode_oid(arcs@), old(self)@);
                }
                return Err(e);
            },
        }
        let ghost content = encode_oid(arcs@);
        proof {
            assert(self@.subrange(0, content.len() as int) =~= content);
            assert(self@.skip(content.len() as int) =~= old(self)@);
        }
        self.close_element(TAG_OBJECT_IDENTIFIER, mark, Ghost(content))
    }
}

} // verus!
