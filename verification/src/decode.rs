//! The decoder: a walk over a control-message area that yields one message at a time.

use crate::kinds::Kinds;
use crate::message::{duration_of, new_duration, CMsg, ControlMsg, Message, Ucred};
use crate::native::{
    i32_value, lemma_word_len, long_value, read_i32, read_long, read_u32, read_word, u32_value,
    word_len, word_size,
};
use crate::wire::{
    align_up, declared_kind, declared_len, declared_level, header_len, header_size, lemma_align_up,
    padding_for,
};
use vstd::prelude::*;
use vstd::slice::slice_subrange;

verus! {

/// The file descriptors that the payload of a rights message holds: as many as
/// fit whole, in the order of the payload.
pub open spec fn fds_of(data: Seq<u8>) -> Seq<i32> {
    Seq::new(data.len() / 4, |i: int| i32_value(data.subrange(4 * i, 4 * i + 4)))
}

/// The credentials that a payload of twelve bytes holds: process, user, group.
pub open spec fn ucred_of(data: Seq<u8>) -> Ucred {
    Ucred {
        pid: i32_value(data.subrange(0, 4)),
        uid: u32_value(data.subrange(4, 8)),
        gid: u32_value(data.subrange(8, 12)),
    }
}

/// The whole seconds of a timestamp payload: its first machine word.
pub open spec fn seconds_of(data: Seq<u8>) -> i64 {
    long_value(data.subrange(0, word_len() as int))
}

/// The fraction of a second of a timestamp payload: its second machine word.
pub open spec fn fraction_of(data: Seq<u8>) -> i64 {
    long_value(data.subrange(word_len() as int, 2 * word_len() as int))
}

/// Whether a payload has the shape that its kind asks for. Credentials fill twelve
/// bytes. A timestamp fills two machine words, both above zero, and its fraction,
/// counted in nanoseconds, stays below `u32::MAX`. Other kinds take any payload.
pub open spec fn payload_valid(k: Kinds, level: i32, kind: i32, data: Seq<u8>) -> bool {
    if k.is_rights(level, kind) {
        true
    } else if k.is_credentials(level, kind) {
        data.len() == 12
    } else if k.is_timestamp(level, kind) {
        &&& data.len() == 2 * word_len()
        &&& seconds_of(data) > 0
        &&& fraction_of(data) > 0
        &&& fraction_of(data) * 1000 < u32::MAX
    } else if k.is_timestamp_ns(level, kind) {
        &&& data.len() == 2 * word_len()
        &&& seconds_of(data) > 0
        &&& fraction_of(data) > 0
        &&& fraction_of(data) < u32::MAX
    } else {
        true
    }
}

/// The message that a level, a kind and a payload stand for.
pub open spec fn interpret(k: Kinds, level: i32, kind: i32, data: Seq<u8>) -> Message {
    if k.is_rights(level, kind) {
        Message::Rights(fds_of(data))
    } else if k.is_credentials(level, kind) {
        Message::Credentials(ucred_of(data))
    } else if k.is_timestamp(level, kind) {
        Message::Timestamp(
            duration_of(seconds_of(data) as u64, (fraction_of(data) * 1000) as u32),
        )
    } else if k.is_timestamp_ns(level, kind) {
        Message::Timestamp(duration_of(seconds_of(data) as u64, fraction_of(data) as u32))
    } else {
        Message::Raw { level, kind, data }
    }
}

/// The payload of the message at the start of `b`: from the end of the header to
/// the declared length, without the padding behind it.
pub open spec fn payload_of(b: Seq<u8>) -> Seq<u8> {
    b.subrange(header_len() as int, declared_len(b) as int)
}

/// Whether a whole message stands at the start of `b`: `b` holds a header, and
/// the length that it declares covers the header and stays within `b`.
pub open spec fn head_whole(b: Seq<u8>) -> bool {
    b.len() >= header_len() && header_len() <= declared_len(b) <= b.len()
}

/// Whether the message at the start of `b` can be decoded: where a whole message
/// stands there, its payload has the shape that its kind asks for.
pub open spec fn head_valid(k: Kinds, b: Seq<u8>) -> bool {
    head_whole(b) ==> payload_valid(k, declared_level(b), declared_kind(b), payload_of(b))
}

/// The message at the start of `b`.
pub open spec fn first_message(k: Kinds, b: Seq<u8>) -> Message {
    interpret(k, declared_level(b), declared_kind(b), payload_of(b))
}

/// What is left of `b` behind its first message and the padding that follows it.
/// Where the padding would reach beyond `b`, nothing is left.
pub open spec fn after_first(b: Seq<u8>) -> Seq<u8> {
    if align_up(declared_len(b) as nat) > b.len() {
        Seq::empty()
    } else {
        b.skip(align_up(declared_len(b) as nat) as int)
    }
}

/// The messages of the area `b`, in order. The walk ends where no whole message
/// is left: less than a header, or a header whose length does not cover it or
/// reaches beyond the area. It ends too at a payload that cannot be decoded.
pub open spec fn messages(k: Kinds, b: Seq<u8>) -> Seq<Message>
    decreases b.len(),
    via messages_decreases
{
    if !head_whole(b) || !head_valid(k, b) {
        Seq::empty()
    } else {
        seq![first_message(k, b)] + messages(k, after_first(b))
    }
}

#[via_fn]
proof fn messages_decreases(k: Kinds, b: Seq<u8>) {
    if head_whole(b) {
        lemma_after_first_shorter(b);
    }
}

/// Whether the walk over `b` can decode every message that it comes to, up to
/// where no whole message is left.
pub open spec fn walkable(k: Kinds, b: Seq<u8>) -> bool
    decreases b.len(),
    via walkable_decreases
{
    if !head_whole(b) {
        true
    } else if !head_valid(k, b) {
        false
    } else {
        walkable(k, after_first(b))
    }
}

#[via_fn]
proof fn walkable_decreases(k: Kinds, b: Seq<u8>) {
    if head_whole(b) {
        lemma_after_first_shorter(b);
    }
}

/// Behind a message that covers its header, less is left than before.
pub proof fn lemma_after_first_shorter(b: Seq<u8>)
    requires
        header_len() <= declared_len(b) <= b.len(),
    ensures
        after_first(b).len() < b.len(),
{
    lemma_align_up(declared_len(b) as nat);
    lemma_word_len();
}

/// A walk over a control-message area.
pub struct ControlMsgIter<'a> {
    control: &'a [u8],
    kinds: Kinds,
}

impl<'a> View for ControlMsgIter<'a> {
    type V = Seq<Message>;

    /// The messages that the walk has yet to yield.
    open spec fn view(&self) -> Seq<Message> {
        messages(self.kinds(), self.remaining())
    }
}

/// Starts a walk over the control-message area `c`, with the kinds of the platform.
pub fn iterator<'a>(c: &'a [u8]) -> (it: ControlMsgIter<'a>)
    ensures
        it.remaining() == c@,
{
    ControlMsgIter::with_kinds(c, Kinds::native())
}

/// Reads the file descriptors of a rights payload.
pub fn decode_rights(data: &[u8]) -> (fds: Vec<i32>)
    ensures
        fds@ == fds_of(data@),
{
    let total: usize = data.len();
    let count: usize = total / 4;
    let mut fds: Vec<i32> = Vec::new();
    let mut i: usize = 0;
    while i < count
        invariant
            i <= count,
            total == data@.len(),
            count == total / 4,
            fds@.len() == i,
            forall|j: int| 0 <= j < i ==> fds@[j] == fds_of(data@)[j],
        decreases count - i,
    {
        let fd = read_i32(data, 4 * i);
        fds.push(fd);
        i = i + 1;
    }
    assert(fds@ =~= fds_of(data@));
    fds
}

/// Whether a payload has the shape that its kind asks for.
pub fn payload_is_valid(kinds: Kinds, level: i32, kind: i32, data: &[u8]) -> (ok: bool)
    ensures
        ok == payload_valid(kinds, level, kind, data@),
{
    let word = word_size();
    if level == kinds.socket && kind == kinds.rights {
        true
    } else if level == kinds.socket && kind == kinds.credentials {
        data.len() == 12
    } else if level == kinds.socket && kind == kinds.timestamp {
        if data.len() != 2 * word {
            return false;
        }
        let sec = read_long(data, 0);
        let usec = read_long(data, word);
        sec > 0 && usec > 0 && usec < 4_294_968
    } else if level == kinds.socket && kind == kinds.timestamp_ns {
        if data.len() != 2 * word {
            return false;
        }
        let sec = read_long(data, 0);
        let nsec = read_long(data, word);
        sec > 0 && nsec > 0 && nsec < 4_294_967_295
    } else {
        true
    }
}

/// Decodes a payload according to its level and kind.
pub fn decode_payload<'a>(kinds: Kinds, level: i32, kind: i32, data: &'a [u8]) -> (m: ControlMsg<
    'a,
>)
    requires
        payload_valid(kinds, level, kind, data@),
    ensures
        m@ == interpret(kinds, level, kind, data@),
{
    let word = word_size();
    if level == kinds.socket && kind == kinds.rights {
        ControlMsg::Rights(decode_rights(data))
    } else if level == kinds.socket && kind == kinds.credentials {
        let pid = read_i32(data, 0);
        let uid = read_u32(data, 4);
        let gid = read_u32(data, 8);
        ControlMsg::Credentials(Ucred { pid, uid, gid })
    } else if level == kinds.socket && kind == kinds.timestamp {
        let sec = read_long(data, 0);
        let usec = read_long(data, word);
        ControlMsg::Timestamp(new_duration(sec as u64, usec as u32 * 1000))
    } else if level == kinds.socket && kind == kinds.timestamp_ns {
        let sec = read_long(data, 0);
        let nsec = read_long(data, word);
        ControlMsg::Timestamp(new_duration(sec as u64, nsec as u32))
    } else {
        ControlMsg::Raw(CMsg::new(level, kind, data))
    }
}

impl<'a> ControlMsgIter<'a> {
    /// The bytes that the walk has not passed yet.
    pub closed spec fn remaining(&self) -> Seq<u8> {
        self.control@
    }

    /// The kinds by which the walk interprets messages.
    pub closed spec fn kinds(&self) -> Kinds {
        self.kinds
    }

    /// Starts a walk over the control-message area `c` that interprets messages
    /// by the given kinds.
    pub fn with_kinds(c: &'a [u8], kinds: Kinds) -> (it: ControlMsgIter<'a>)
        ensures
            it.remaining() == c@,
            it.kinds() == kinds,
    {
        ControlMsgIter { control: c, kinds }
    }

    /// Whether the next step can decode what it finds: see `head_valid`. Where no
    /// whole message is left, there is nothing to decode, and the answer is yes.
    pub fn well_formed(&self) -> (ok: bool)
        ensures
            ok == head_valid(self.kinds(), self.remaining()),
    {
        let control = self.control;
        let hdr = header_size();
        if control.len() < hdr {
            return true;
        }
        let word = word_size();
        let cmsg_len = read_word(control, 0);
        if cmsg_len < hdr || cmsg_len > control.len() {
            return true;
        }
        let level = read_i32(control, word);
        let kind = read_i32(control, word + 4);
        let data = slice_subrange(control, hdr, cmsg_len);
        payload_is_valid(self.kinds, level, kind, data)
    }

    /// Yields the next message, or `None` where no whole message is left.
    ///
    /// The message is the one at the start of what remained, and the walk moves
    /// behind it and its padding. A message that ends the area without padding is
    /// yielded too, and the walk is then at its end. Where less than a header is
    /// left, the walk stays where it is. Where a header is left whose length does
    /// not cover it or reaches beyond the area, as in storage that is zero behind
    /// its last message or in an area that was cut short, the walk ends there
    /// and drops what is left.
    pub fn next(&mut self) -> (r: Option<ControlMsg<'a>>)
        requires
            head_valid(old(self).kinds(), old(self).remaining()),
        ensures
            final(self).kinds() == old(self).kinds(),
            old(self).remaining().len() < header_len() ==> r is None && final(self).remaining()
                == old(self).remaining(),
            old(self).remaining().len() >= header_len() && !head_whole(old(self).remaining())
                ==> r is None && final(self).remaining() == Seq::<u8>::empty(),
            head_whole(old(self).remaining()) ==> r is Some && r->0@ == first_message(
                old(self).kinds(),
                old(self).remaining(),
            ) && final(self).remaining() == after_first(old(self).remaining()),
            r is Some ==> final(self).remaining().len() < old(self).remaining().len(),
            r is None ==> old(self)@ == Seq::<Message>::empty(),
            r is Some ==> old(self)@ == seq![r->0@] + final(self)@,
            walkable(old(self).kinds(), old(self).remaining()) ==> walkable(
                final(self).kinds(),
                final(self).remaining(),
            ),
    {
        let control = self.control;
        let hdr = header_size();
        if control.len() < hdr {
            return None;
        }
        let word = word_size();
        let cmsg_len = read_word(control, 0);
        if cmsg_len < hdr || cmsg_len > control.len() {
            self.control = slice_subrange(control, control.len(), control.len());
            return None;
        }
        let level = read_i32(control, word);
        let kind = read_i32(control, word + 4);
        let pad = padding_for(cmsg_len);
        proof {
            lemma_align_up(cmsg_len as nat);
            lemma_after_first_shorter(control@);
        }
        self.control = if control.len() - cmsg_len < pad {
            slice_subrange(control, control.len(), control.len())
        } else {
            slice_subrange(control, cmsg_len + pad, control.len())
        };
        proof {
            assert(self.control@ =~= after_first(control@));
        }
        let data = slice_subrange(control, hdr, cmsg_len);
        Some(decode_payload(self.kinds, level, kind, data))
    }
}

} // verus!
