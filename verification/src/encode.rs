//! The encoder: a builder that appends control messages to a sink.

use crate::error::Error;
use crate::kinds::Kinds;
use crate::native::{i32_bytes, word_len, word_size, write_i32};
use crate::sink::{behind, lemma_behind_twice, Sink};
use crate::wire::{
    encode_header, frame, header_len, lemma_align_up, lemma_header_keeps_alignment, len, padding,
    padding_for, zeros,
};
use vstd::prelude::*;

verus! {

/// Whether a header may stand at the address `addr`: on a word boundary.
pub open spec fn is_aligned(addr: nat) -> bool {
    addr % word_len() == 0
}

/// The bytes of the file descriptors `fds`, one after another.
pub open spec fn fd_bytes(fds: Seq<i32>) -> Seq<u8>
    decreases fds.len(),
{
    if fds.len() == 0 {
        Seq::empty()
    } else {
        fd_bytes(fds.drop_last()) + i32_bytes(fds.last())
    }
}

/// Whether a sink with `room` bytes of room, written up to `offset`, can take a
/// message with a payload of `payload_len` bytes and the padding before it.
pub open spec fn fits(offset: nat, room: nat, payload_len: nat) -> bool {
    padding(offset) + header_len() + payload_len <= room
}

/// The bytes that appending a message adds to a sink with `room` bytes of room,
/// written up to `offset`: padding up to the next word boundary, then the message.
/// Where the message does not fit, only the padding is added, and where not even
/// the padding fits, nothing.
pub open spec fn appended(offset: nat, room: nat, level: i32, kind: i32, payload: Seq<u8>) -> Seq<
    u8,
> {
    if room < padding(offset) {
        Seq::empty()
    } else if !fits(offset, room, payload.len()) {
        zeros(padding(offset))
    } else {
        zeros(padding(offset)) + frame(level, kind, payload)
    }
}

/// Whether a sink may start a control-message area at the address `addr`.
pub fn aligned(addr: usize) -> (r: Result<(), Error>)
    ensures
        r == if is_aligned(addr as nat) {
            Ok::<(), Error>(())
        } else {
            Err::<(), Error>(Error::Alignment)
        },
{
    if addr % word_size() == 0 {
        Ok(())
    } else {
        Err(Error::Alignment)
    }
}

/// The bytes of the file descriptors `fds`, one after another.
pub fn encode_rights(fds: &[i32]) -> (out: Vec<u8>)
    ensures
        out@ == fd_bytes(fds@),
{
    let mut out: Vec<u8> = Vec::new();
    let mut i: usize = 0;
    while i < fds.len()
        invariant
            i <= fds@.len(),
            out@ == fd_bytes(fds@.take(i as int)),
        decreases fds@.len() - i,
    {
        proof {
            assert(fds@.take(i + 1).drop_last() =~= fds@.take(i as int));
        }
        write_i32(&mut out, fds[i]);
        i = i + 1;
    }
    proof {
        assert(fds@.take(fds@.len() as int) =~= fds@);
    }
    out
}

/// Appends control messages to a sink. The first failure sticks: every later
/// append leaves the sink alone, and `finish` reports that failure.
#[must_use]
pub struct ControlMsgBuilder<'a, B: Sink> {
    buf: &'a mut B,
    result: Result<(), Error>,
    kinds: Kinds,
    offset: usize,
}

/// A builder over `buf`, with the kinds of the platform. It fails with
/// `Error::Alignment` from the start where the sink's write address is no word
/// boundary: see `ControlMsgBuilder::starting_at`.
pub fn builder<'a, B: Sink>(buf: &'a mut B) -> (b: ControlMsgBuilder<'a, B>)
    ensures
        b.sink().written() == old(buf).written(),
        b.sink().unwritten() == old(buf).unwritten(),
        b.sink().room() == old(buf).room(),
        *final(b.target()) == *final(buf),
        b.offset() == 0,
        b.wf(),
        b.outcome() == Ok::<(), Error>(()) || b.outcome() == Err::<(), Error>(Error::Alignment),
{
    let addr = buf.write_address();
    ControlMsgBuilder::starting_at(buf, addr, Kinds::native())
}

impl<'a, B: Sink> ControlMsgBuilder<'a, B> {
    /// The sink as it is now.
    pub closed spec fn sink(&self) -> B {
        *self.buf
    }

    /// The borrow of the sink that the builder holds. What the sink is when the
    /// builder is gone is the final value of this borrow.
    pub closed spec fn target(&self) -> &'a mut B {
        self.buf
    }

    /// What `finish` would report now.
    pub closed spec fn outcome(&self) -> Result<(), Error> {
        self.result
    }

    /// The kinds by which the builder labels the messages it knows.
    pub closed spec fn kinds(&self) -> Kinds {
        self.kinds
    }

    /// The number of bytes that the builder has put into the sink.
    pub closed spec fn offset(&self) -> nat {
        self.offset as nat
    }

    /// The builder's count of bytes can follow the sink to its end.
    pub closed spec fn wf(&self) -> bool {
        self.offset + self.buf.room() <= usize::MAX
    }

    /// When the builder is not used again, the sink is left as the builder last
    /// saw it.
    pub proof fn lemma_sink_is_left(self)
        requires
            has_resolved(self),
        ensures
            *final(self.target()) == self.sink(),
    {
    }

    /// A builder over `buf`, whose next byte goes to the address `addr`, that
    /// labels the messages it knows by `kinds`. It fails with `Error::Alignment`
    /// from the start where `addr` is no word boundary.
    pub fn starting_at(buf: &'a mut B, addr: usize, kinds: Kinds) -> (b: ControlMsgBuilder<'a, B>)
        ensures
            b.sink() == *old(buf),
            *final(b.target()) == *final(buf),
            b.kinds() == kinds,
            b.offset() == 0,
            b.wf(),
            b.outcome() == if is_aligned(addr as nat) {
                Ok::<(), Error>(())
            } else {
                Err::<(), Error>(Error::Alignment)
            },
    {
        let result = aligned(addr);
        proof {
            buf.lemma_room_fits();
        }
        ControlMsgBuilder { buf, result, kinds, offset: 0 }
    }

    /// Appends a message of the given level and kind with the payload `msg`.
    ///
    /// After a failure nothing happens. Else the sink gets zero bytes up to the
    /// next word boundary, then the header, then the payload. Where the sink has
    /// no room for the padding, or then for header and payload together, the
    /// builder fails with `Error::NoSpace`, and neither header nor payload is
    /// written. What stands in the sink's storage behind the bytes that were
    /// added stays as it was.
    pub fn msg(&mut self, level: i32, kind: i32, msg: &[u8]) -> (r: &mut ControlMsgBuilder<'a, B>)
        requires
            old(self).wf(),
        ensures
            *final(self) == *final(r),
            *final(r.target()) == *final(old(self).target()),
            r.kinds() == old(self).kinds(),
            r.wf(),
            old(self).outcome() is Err ==> r.outcome() == old(self).outcome() && r.sink() == old(
                self,
            ).sink() && r.offset() == old(self).offset(),
            old(self).outcome() is Ok ==> {
                let added = appended(
                    old(self).offset(),
                    old(self).sink().room(),
                    level,
                    kind,
                    msg@,
                );
                &&& r.sink().written() == old(self).sink().written() + added
                &&& r.sink().unwritten() == behind(old(self).sink().unwritten(), added.len())
                &&& r.sink().room() == old(self).sink().room() - added.len()
                &&& added.len() == 0 ==> r.sink() == old(self).sink()
                &&& r.offset() == old(self).offset() + added.len()
                &&& r.outcome() == if fits(
                    old(self).offset(),
                    old(self).sink().room(),
                    msg@.len(),
                ) {
                    Ok::<(), Error>(())
                } else {
                    Err::<(), Error>(Error::NoSpace)
                }
            },
    {
        if self.result.is_ok() {
            self.result = self.append(level, kind, msg);
        }
        self
    }

    /// Appends a message that passes the file descriptors `fds`: a message of
    /// the socket level and the rights kind whose payload is their bytes.
    pub fn rights(&mut self, fds: &[i32]) -> (r: &mut ControlMsgBuilder<'a, B>)
        requires
            old(self).wf(),
        ensures
            *final(self) == *final(r),
            *final(r.target()) == *final(old(self).target()),
            r.kinds() == old(self).kinds(),
            r.wf(),
            old(self).outcome() is Err ==> r.outcome() == old(self).outcome() && r.sink() == old(
                self,
            ).sink() && r.offset() == old(self).offset(),
            old(self).outcome() is Ok ==> {
                let added = appended(
                    old(self).offset(),
                    old(self).sink().room(),
                    old(self).kinds().socket,
                    old(self).kinds().rights,
                    fd_bytes(fds@),
                );
                &&& r.sink().written() == old(self).sink().written() + added
                &&& r.sink().unwritten() == behind(old(self).sink().unwritten(), added.len())
                &&& r.sink().room() == old(self).sink().room() - added.len()
                &&& added.len() == 0 ==> r.sink() == old(self).sink()
                &&& r.offset() == old(self).offset() + added.len()
                &&& r.outcome() == if fits(
                    old(self).offset(),
                    old(self).sink().room(),
                    fd_bytes(fds@).len(),
                ) {
                    Ok::<(), Error>(())
                } else {
                    Err::<(), Error>(Error::NoSpace)
                }
            },
    {
        let payload = encode_rights(fds);
        let level = self.kinds.socket;
        let kind = self.kinds.rights;
        self.msg(level, kind, payload.as_slice())
    }

    /// The outcome of all appends so far: the first failure, or success.
    pub fn finish(&mut self) -> (r: Result<(), Error>)
        ensures
            r == old(self).outcome(),
            *final(self) == *old(self),
    {
        self.result
    }

    /// Appends one message to a builder that has not failed.
    fn append(&mut self, level: i32, kind: i32, msg: &[u8]) -> (r: Result<(), Error>)
        requires
            old(self).wf(),
        ensures
            *final(final(self).buf) == *final(old(self).buf),
            final(self).kinds == old(self).kinds,
            final(self).result == old(self).result,
            final(self).wf(),
            ({
                let added = appended(
                    old(self).offset(),
                    old(self).sink().room(),
                    level,
                    kind,
                    msg@,
                );
                &&& final(self).sink().written() == old(self).sink().written() + added
                &&& final(self).sink().unwritten() == behind(
                    old(self).sink().unwritten(),
                    added.len(),
                )
                &&& final(self).sink().room() == old(self).sink().room() - added.len()
                &&& added.len() == 0 ==> final(self).sink() == old(self).sink()
                &&& final(self).offset() == old(self).offset() + added.len()
                &&& r == if fits(old(self).offset(), old(self).sink().room(), msg@.len()) {
                    Ok::<(), Error>(())
                } else {
                    Err::<(), Error>(Error::NoSpace)
                }
            }),
    {
        let ghost before = self.buf.written();
        let ghost ahead = self.buf.unwritten();
        let ghost pad = padding(self.offset as nat);
        proof {
            lemma_align_up(self.offset as nat);
            lemma_behind_twice(ahead, 0, 0);
        }
        match self.align_buf() {
            Err(e) => {
                proof {
                    assert(before + Seq::<u8>::empty() =~= before);
                }
                return Err(e);
            },
            Ok(()) => {},
        }
        let cmsg_len = match len(msg.len()) {
            Some(n) => n,
            None => {
                proof {
                    self.buf.lemma_room_fits();
                }
                return Err(Error::NoSpace);
            },
        };
        if self.buf.remaining_mut() < cmsg_len {
            return Err(Error::NoSpace);
        }
        let header = encode_header(cmsg_len, level, kind);
        self.buf.put_slice(header.as_slice());
        self.offset = self.offset + header.len();
        proof {
            lemma_header_keeps_alignment((old(self).offset + pad) as nat);
        }
        match self.align_buf() {
            Err(e) => {
                return Err(e);
            },
            Ok(()) => {},
        }
        self.buf.put_slice(msg);
        self.offset = self.offset + msg.len();
        proof {
            assert(self.buf.written() =~= before + (zeros(pad) + frame(level, kind, msg@)));
            lemma_behind_twice(ahead, pad, header_len());
            lemma_behind_twice(behind(ahead, pad + header_len()), 0, msg@.len());
            lemma_behind_twice(ahead, pad + header_len(), msg@.len());
        }
        Ok(())
    }

    /// Puts zero bytes into the sink up to the next word boundary.
    fn align_buf(&mut self) -> (r: Result<(), Error>)
        requires
            old(self).wf(),
        ensures
            *final(final(self).buf) == *final(old(self).buf),
            final(self).kinds == old(self).kinds,
            final(self).result == old(self).result,
            final(self).wf(),
            old(self).buf.room() < padding(old(self).offset as nat) ==> r == Err::<(), Error>(
                Error::NoSpace,
            ) && *final(self).buf == *old(self).buf && final(self).offset == old(self).offset,
            old(self).buf.room() >= padding(old(self).offset as nat) ==> r == Ok::<(), Error>(())
                && final(self).buf.written() == old(self).buf.written() + zeros(
                padding(old(self).offset as nat),
            ) && final(self).buf.unwritten() == behind(
                old(self).buf.unwritten(),
                padding(old(self).offset as nat),
            ) && final(self).buf.room() == old(self).buf.room() - padding(old(self).offset as nat)
                && final(self).offset == old(self).offset + padding(old(self).offset as nat),
            padding(old(self).offset as nat) == 0 ==> *final(self).buf == *old(self).buf,
    {
        let adjust = padding_for(self.offset);
        if self.buf.remaining_mut() < adjust {
            return Err(Error::NoSpace);
        }
        let ghost before = self.buf.written();
        let ghost ahead = self.buf.unwritten();
        let ghost room = self.buf.room();
        proof {
            lemma_behind_twice(ahead, 0, 0);
        }
        let mut i: usize = 0;
        while i < adjust
            invariant
                i <= adjust <= room,
                i == 0 ==> *self.buf == *old(self).buf,
                self.buf.unwritten() == behind(ahead, i as nat),
                *final(self.buf) == *final(old(self).buf),
                self.kinds == old(self).kinds,
                self.result == old(self).result,
                self.offset == old(self).offset,
                self.buf.written() == before + zeros(i as nat),
                self.buf.room() == room - i,
            decreases adjust - i,
        {
            self.buf.put_u8(0);
            proof {
                assert(self.buf.written() =~= before + zeros((i + 1) as nat));
                lemma_behind_twice(ahead, i as nat, 1);
            }
            i = i + 1;
        }
        proof {
            assert(before + zeros(0) =~= before);
        }
        self.offset = self.offset + adjust;
        Ok(())
    }
}

} // verus!
