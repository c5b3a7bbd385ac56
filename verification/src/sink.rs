//! Sinks: where the encoder puts its bytes.

use bytes::BytesMut;
use vstd::prelude::*;
use vstd::slice::slice_subrange;

verus! {

/// What is left of `s` behind its first `n` bytes, and nothing where `s` has
/// fewer.
pub open spec fn behind(s: Seq<u8>, n: nat) -> Seq<u8> {
    if n <= s.len() {
        s.skip(n as int)
    } else {
        Seq::empty()
    }
}

/// Leaving out `a` bytes and then `b` more leaves out `a + b`.
pub proof fn lemma_behind_twice(s: Seq<u8>, a: nat, b: nat)
    ensures
        behind(behind(s, a), b) == behind(s, a + b),
        behind(s, 0) == s,
{
    assert(behind(behind(s, a), b) =~= behind(s, a + b));
    assert(behind(s, 0) =~= s);
}

/// A destination that takes bytes one after another and knows how many more it
/// can take.
pub trait Sink {
    /// The bytes that the sink holds, in the order in which it took them.
    spec fn written(&self) -> Seq<u8>;

    /// The bytes that stand in the sink's storage behind the written ones, and
    /// that the next writes replace one by one. A sink that grows as it is
    /// written has none.
    spec fn unwritten(&self) -> Seq<u8>;

    /// The number of bytes that the sink can still take.
    spec fn room(&self) -> nat;

    /// The room of a sink is a number that a machine word holds.
    proof fn lemma_room_fits(&self)
        ensures
            self.room() <= usize::MAX,
    ;

    /// The number of bytes that the sink can still take.
    fn remaining_mut(&self) -> (n: usize)
        ensures
            n == self.room(),
    ;

    /// The address in memory at which the next byte will be put. Looking it up
    /// leaves the sink's bytes and room as they are.
    fn write_address(&mut self) -> (addr: usize)
        ensures
            final(self).written() == old(self).written(),
            final(self).unwritten() == old(self).unwritten(),
            final(self).room() == old(self).room(),
    ;

    /// Puts the bytes of `src` behind those that the sink holds. They take the
    /// place of as many unwritten bytes; what stands behind those stays.
    fn put_slice(&mut self, src: &[u8])
        requires
            src@.len() <= old(self).room(),
        ensures
            final(self).written() == old(self).written() + src@,
            final(self).unwritten() == behind(old(self).unwritten(), src@.len()),
            final(self).room() == old(self).room() - src@.len(),
    ;

    /// Puts one byte behind those that the sink holds. It takes the place of one
    /// unwritten byte; what stands behind that stays.
    fn put_u8(&mut self, n: u8)
        requires
            1 <= old(self).room(),
        ensures
            final(self).written() == old(self).written().push(n),
            final(self).unwritten() == behind(old(self).unwritten(), 1),
            final(self).room() == old(self).room() - 1,
    ;
}

/// `BufMut::remaining_mut` for `Vec<u8>`: what is missing to `isize::MAX` bytes, the
/// most that a vector holds.
#[verifier::external_body]
fn vec_remaining_mut(v: &Vec<u8>) -> (n: usize)
    ensures
        n == isize::MAX - v@.len(),
{
    bytes::BufMut::remaining_mut(v)
}

/// `BufMut::chunk_mut` for `Vec<u8>`, and of the chunk `UninitSlice::as_mut_ptr`
/// as a number: the address behind the vector's last byte. The vector may grow
/// its allocation; its bytes stay. Nothing is claimed of the address.
#[verifier::external_body]
fn vec_write_address(v: &mut Vec<u8>) -> (addr: usize)
    ensures
        final(v)@ == old(v)@,
{
    bytes::BufMut::chunk_mut(v).as_mut_ptr() as usize
}

/// `BufMut::put_slice` for `Vec<u8>`: appends `src` to the vector.
#[verifier::external_body]
fn vec_put_slice(v: &mut Vec<u8>, src: &[u8])
    requires
        src@.len() == 0 || old(v)@.len() + src@.len() <= isize::MAX,
    ensures
        final(v)@ == old(v)@ + src@,
{
    bytes::BufMut::put_slice(v, src)
}

/// `BufMut::put_u8` for `Vec<u8>`: appends one byte to the vector.
#[verifier::external_body]
fn vec_put_u8(v: &mut Vec<u8>, n: u8)
    requires
        old(v)@.len() + 1 <= isize::MAX,
    ensures
        final(v)@ == old(v)@.push(n),
{
    bytes::BufMut::put_u8(v, n)
}

impl Sink for Vec<u8> {
    open spec fn written(&self) -> Seq<u8> {
        self@
    }

    open spec fn unwritten(&self) -> Seq<u8> {
        Seq::empty()
    }

    open spec fn room(&self) -> nat {
        if self@.len() <= isize::MAX {
            (isize::MAX - self@.len()) as nat
        } else {
            0
        }
    }

    proof fn lemma_room_fits(&self) {
    }

    fn remaining_mut(&self) -> (n: usize) {
        vec_remaining_mut(self)
    }

    fn write_address(&mut self) -> (addr: usize) {
        vec_write_address(self)
    }

    fn put_slice(&mut self, src: &[u8]) {
        vec_put_slice(self, src)
    }

    fn put_u8(&mut self, n: u8) {
        vec_put_u8(self, n)
    }
}

#[verifier::external_type_specification]
#[verifier::external_body]
pub struct ExBytesMut(BytesMut);

/// The bytes that a `BytesMut` holds, from its first to its last.
pub uninterp spec fn bytes_mut_contents(b: BytesMut) -> Seq<u8>;

/// `BufMut::remaining_mut` for `BytesMut`: what is missing to `isize::MAX` bytes,
/// the most that one allocation holds.
#[verifier::external_body]
fn bytes_mut_remaining_mut(b: &BytesMut) -> (n: usize)
    ensures
        n == isize::MAX - bytes_mut_contents(*b).len(),
{
    bytes::BufMut::remaining_mut(b)
}

/// `BufMut::chunk_mut` for `BytesMut`, and of the chunk `UninitSlice::as_mut_ptr`
/// as a number: the address behind the buffer's last byte. The buffer may grow
/// its allocation; its bytes stay. Nothing is claimed of the address.
#[verifier::external_body]
fn bytes_mut_write_address(b: &mut BytesMut) -> (addr: usize)
    ensures
        bytes_mut_contents(*final(b)) == bytes_mut_contents(*old(b)),
{
    bytes::BufMut::chunk_mut(b).as_mut_ptr() as usize
}

/// `BufMut::put_slice` for `BytesMut`: appends `src` to the buffer.
#[verifier::external_body]
fn bytes_mut_put_slice(b: &mut BytesMut, src: &[u8])
    requires
        src@.len() == 0 || bytes_mut_contents(*old(b)).len() + src@.len() <= isize::MAX,
    ensures
        bytes_mut_contents(*final(b)) == bytes_mut_contents(*old(b)) + src@,
{
    bytes::BufMut::put_slice(b, src)
}

/// `BufMut::put_u8` for `BytesMut`: appends one byte to the buffer.
#[verifier::external_body]
fn bytes_mut_put_u8(b: &mut BytesMut, n: u8)
    requires
        bytes_mut_contents(*old(b)).len() + 1 <= isize::MAX,
    ensures
        bytes_mut_contents(*final(b)) == bytes_mut_contents(*old(b)).push(n),
{
    bytes::BufMut::put_u8(b, n)
}

impl Sink for BytesMut {
    open spec fn written(&self) -> Seq<u8> {
        bytes_mut_contents(*self)
    }

    open spec fn unwritten(&self) -> Seq<u8> {
        Seq::empty()
    }

    open spec fn room(&self) -> nat {
        if bytes_mut_contents(*self).len() <= isize::MAX {
            (isize::MAX - bytes_mut_contents(*self).len()) as nat
        } else {
            0
        }
    }

    proof fn lemma_room_fits(&self) {
    }

    fn remaining_mut(&self) -> (n: usize) {
        bytes_mut_remaining_mut(self)
    }

    fn write_address(&mut self) -> (addr: usize) {
        bytes_mut_write_address(self)
    }

    fn put_slice(&mut self, src: &[u8]) {
        bytes_mut_put_slice(self, src)
    }

    fn put_u8(&mut self, n: u8) {
        bytes_mut_put_u8(self, n)
    }
}

/// `<[u8]>::as_ptr` as a number: the address of the slice's first byte. Nothing
/// is claimed of it.
#[verifier::external_body]
fn slice_address(s: &[u8]) -> (addr: usize) {
    s.as_ptr() as usize
}

/// A sink of fixed size: a buffer that is filled from its start and never grows.
pub struct Cursor {
    buf: Vec<u8>,
    pos: usize,
}

impl Cursor {
    /// The whole buffer: what was written, then what is still as it was.
    pub closed spec fn contents(&self) -> Seq<u8> {
        self.buf@
    }

    /// The number of bytes written so far.
    pub closed spec fn filled(&self) -> nat {
        if self.pos <= self.buf@.len() {
            self.pos as nat
        } else {
            self.buf@.len()
        }
    }

    /// A cursor at the start of `buf`.
    pub fn new(buf: Vec<u8>) -> (c: Cursor)
        ensures
            c.contents() == buf@,
            c.filled() == 0,
    {
        Cursor { buf, pos: 0 }
    }

    /// The written bytes lie within the buffer, which is the written bytes
    /// followed by the unwritten ones.
    pub proof fn lemma_layout(&self)
        ensures
            self.filled() <= self.contents().len(),
            self.written().len() == self.filled(),
            self.unwritten().len() == self.room(),
            self.contents() == self.written() + self.unwritten(),
    {
        assert(self.contents() =~= self.written() + self.unwritten());
    }

    /// The number of bytes written so far.
    pub fn position(&self) -> (n: usize)
        ensures
            n == self.filled(),
            n <= self.contents().len(),
    {
        if self.pos <= self.buf.len() {
            self.pos
        } else {
            self.buf.len()
        }
    }

    /// The whole buffer.
    pub fn get_ref(&self) -> (r: &[u8])
        ensures
            r@ == self.contents(),
    {
        self.buf.as_slice()
    }

    /// Gives the buffer back.
    pub fn into_inner(self) -> (buf: Vec<u8>)
        ensures
            buf@ == self.contents(),
    {
        self.buf
    }
}

impl Sink for Cursor {
    open spec fn written(&self) -> Seq<u8> {
        self.contents().take(self.filled() as int)
    }

    open spec fn unwritten(&self) -> Seq<u8> {
        self.contents().skip(self.filled() as int)
    }

    open spec fn room(&self) -> nat {
        (self.contents().len() - self.filled()) as nat
    }

    proof fn lemma_room_fits(&self) {
        assert(self.buf@.len() == self.buf.len());
    }

    fn remaining_mut(&self) -> (n: usize) {
        self.buf.len() - self.position()
    }

    fn write_address(&mut self) -> (addr: usize) {
        let at = self.position();
        slice_address(slice_subrange(self.buf.as_slice(), at, self.buf.len()))
    }

    fn put_slice(&mut self, src: &[u8]) {
        let start = self.position();
        let total = self.buf.len();
        let ghost before = self.buf@;
        let mut i: usize = 0;
        while i < src.len()
            invariant
                i <= src@.len(),
                start + src@.len() <= before.len() == total,
                self.buf@.len() == before.len(),
                self.buf@ == before.take(start as int) + src@.take(i as int) + before.skip(
                    start + i,
                ),
            decreases src@.len() - i,
        {
            self.buf.set(start + i, src[i]);
            proof {
                assert(self.buf@ =~= before.take(start as int) + src@.take(i + 1) + before.skip(
                    start + i + 1,
                ));
            }
            i = i + 1;
        }
        self.pos = start + src.len();
        proof {
            assert(src@.take(src@.len() as int) =~= src@);
            assert(self.written() =~= before.take(start as int) + src@);
        }
    }

    fn put_u8(&mut self, n: u8) {
        let start = self.position();
        let total = self.buf.len();
        let ghost before = self.buf@;
        self.buf.set(start, n);
        self.pos = start + 1;
        proof {
            assert(self.written() =~= before.take(start as int).push(n));
        }
    }
}

} // verus!
