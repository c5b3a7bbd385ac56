//! What holds between the encoder and the decoder: an area that the encoder
//! wrote decodes to the messages that were appended, in their order.

use crate::decode::{
    after_first, fds_of, first_message, head_valid, head_whole, interpret, messages, payload_of,
    payload_valid, walkable, ControlMsgIter,
};
use crate::encode::{appended, fd_bytes, fits};
use crate::kinds::Kinds;
use crate::message::Message;
use crate::sink::behind;
use crate::native::{
    i32_bytes, lemma_i32_round_trip, lemma_word_len, lemma_zero_bytes_value, word_len,
};
use crate::wire::{
    declared_kind, declared_len, declared_level, frame, header_bytes, header_len, lemma_align_up,
    lemma_header_round_trip, padding, zeros,
};
use vstd::prelude::*;

verus! {

/// The bytes of `n` file descriptors are `4 * n` bytes, and the descriptor at
/// `i` stands in the four bytes from `4 * i` on.
pub proof fn lemma_fd_bytes(fds: Seq<i32>)
    ensures
        fd_bytes(fds).len() == 4 * fds.len(),
        forall|i: int|
            0 <= i < fds.len() ==> #[trigger] fd_bytes(fds).subrange(4 * i, 4 * i + 4)
                == i32_bytes(fds[i]),
    decreases fds.len(),
{
    if fds.len() > 0 {
        let front = fds.drop_last();
        lemma_fd_bytes(front);
        lemma_i32_round_trip(fds.last());
        let all = fd_bytes(fds);
        assert forall|i: int| 0 <= i < fds.len() implies #[trigger] all.subrange(4 * i, 4 * i + 4)
            == i32_bytes(fds[i]) by {
            if i < front.len() {
                assert(all.subrange(4 * i, 4 * i + 4) =~= fd_bytes(front).subrange(
                    4 * i,
                    4 * i + 4,
                ));
                assert(front[i] == fds[i]);
            } else {
                assert(all.subrange(4 * i, 4 * i + 4) =~= i32_bytes(fds.last()));
            }
        }
    }
}

/// File descriptors survive being written as a payload and read back.
pub proof fn law_fds_round_trip(fds: Seq<i32>)
    ensures
        fds_of(fd_bytes(fds)) == fds,
{
    lemma_fd_bytes(fds);
    let back = fds_of(fd_bytes(fds));
    assert(back.len() == fds.len());
    assert forall|i: int| 0 <= i < fds.len() implies back[i] == fds[i] by {
        assert(fd_bytes(fds).subrange(4 * i, 4 * i + 4) == i32_bytes(fds[i]));
        lemma_i32_round_trip(fds[i]);
    }
    assert(back =~= fds);
}

/// The header and the payload of a message can be read back from its bytes,
/// whatever follows them.
pub proof fn lemma_frame_fields(level: i32, kind: i32, payload: Seq<u8>, rest: Seq<u8>)
    requires
        header_len() + payload.len() <= usize::MAX,
    ensures
        frame(level, kind, payload).len() == header_len() + payload.len(),
        declared_len(frame(level, kind, payload) + rest) == header_len() + payload.len(),
        declared_level(frame(level, kind, payload) + rest) == level,
        declared_kind(frame(level, kind, payload) + rest) == kind,
        payload_of(frame(level, kind, payload) + rest) == payload,
{
    let total = (header_len() + payload.len()) as usize;
    let b = frame(level, kind, payload) + rest;
    lemma_header_round_trip(total, level, kind, payload + rest);
    assert(b =~= header_bytes(total, level, kind) + (payload + rest));
    assert(payload_of(b) =~= payload);
}

/// A message that is followed by its padding decodes to itself, and the walk
/// goes on behind the padding.
pub proof fn law_message_then_rest(
    k: Kinds,
    level: i32,
    kind: i32,
    payload: Seq<u8>,
    pad: Seq<u8>,
    rest: Seq<u8>,
)
    requires
        header_len() + payload.len() <= usize::MAX,
        payload_valid(k, level, kind, payload),
        pad.len() == padding(header_len() + payload.len()),
    ensures
        messages(k, frame(level, kind, payload) + pad + rest) == seq![
            interpret(k, level, kind, payload),
        ] + messages(k, rest),
        walkable(k, frame(level, kind, payload) + pad + rest) == walkable(k, rest),
{
    let b = frame(level, kind, payload) + pad + rest;
    lemma_frame_fields(level, kind, payload, pad + rest);
    assert(b =~= frame(level, kind, payload) + (pad + rest));
    lemma_align_up(header_len() + payload.len());
    assert(after_first(b) =~= rest);
    assert(head_whole(b) && head_valid(k, b));
    assert(first_message(k, b) == interpret(k, level, kind, payload));
}

/// A message at the end of an area decodes to itself, and the walk ends behind
/// it, where what follows is too short to hold padding and another header.
pub proof fn law_last_message(k: Kinds, level: i32, kind: i32, payload: Seq<u8>, tail: Seq<u8>)
    requires
        header_len() + payload.len() <= usize::MAX,
        payload_valid(k, level, kind, payload),
        tail.len() < padding(header_len() + payload.len()) + header_len(),
    ensures
        messages(k, frame(level, kind, payload) + tail) == seq![interpret(k, level, kind, payload)],
        walkable(k, frame(level, kind, payload) + tail),
{
    let b = frame(level, kind, payload) + tail;
    lemma_frame_fields(level, kind, payload, tail);
    lemma_align_up(header_len() + payload.len());
    assert(head_whole(b) && head_valid(k, b));
    assert(first_message(k, b) == interpret(k, level, kind, payload));
    let rest = after_first(b);
    assert(rest.len() < header_len());
    assert(messages(k, rest) =~= Seq::<Message>::empty());
    assert(messages(k, b) =~= seq![interpret(k, level, kind, payload)]);
    assert(walkable(k, rest));
    assert(walkable(k, b));
}

/// An area of zero bytes holds no message, and the walk over it ends at once: a
/// header of zeros declares a length that does not cover the header itself.
pub proof fn lemma_zero_area_is_empty(k: Kinds, n: nat)
    ensures
        !head_whole(zeros(n)),
        messages(k, zeros(n)) == Seq::<Message>::empty(),
        walkable(k, zeros(n)),
{
    let b = zeros(n);
    if b.len() >= header_len() {
        lemma_word_len();
        lemma_zero_bytes_value(b.subrange(0, word_len() as int));
        assert(declared_len(b) == 0);
    }
}

/// A message in storage that was zero before decodes to itself and nothing
/// more, however much of the storage is left behind it, and the walk can decode
/// all it comes to.
pub proof fn law_message_before_zeros(k: Kinds, level: i32, kind: i32, payload: Seq<u8>, n: nat)
    requires
        header_len() + payload.len() <= usize::MAX,
        payload_valid(k, level, kind, payload),
    ensures
        messages(k, frame(level, kind, payload) + zeros(n)) == seq![
            interpret(k, level, kind, payload),
        ],
        walkable(k, frame(level, kind, payload) + zeros(n)),
{
    let pad = padding(header_len() + payload.len());
    if n < pad + header_len() {
        law_last_message(k, level, kind, payload, zeros(n));
    } else {
        let rest = zeros((n - pad) as nat);
        law_message_then_rest(k, level, kind, payload, zeros(pad), rest);
        lemma_zero_area_is_empty(k, (n - pad) as nat);
        assert(frame(level, kind, payload) + zeros(pad) + rest =~= frame(level, kind, payload)
            + zeros(n));
    }
}

/// Round trip: the bytes of one rights message decode to that one message with
/// the same file descriptors and nothing more, where they are followed by less
/// than would hold another header, or by zero bytes only, and the walk can
/// decode all it comes to.
pub proof fn law_rights_round_trip(k: Kinds, fds: Seq<i32>, tail: Seq<u8>)
    requires
        header_len() + 4 * fds.len() <= usize::MAX,
        tail.len() < padding(header_len() + 4 * fds.len()) + header_len() || tail == zeros(
            tail.len(),
        ),
    ensures
        messages(k, frame(k.socket, k.rights, fd_bytes(fds)) + tail) == seq![Message::Rights(fds)],
        walkable(k, frame(k.socket, k.rights, fd_bytes(fds)) + tail),
{
    lemma_fd_bytes(fds);
    law_fds_round_trip(fds);
    if tail.len() < padding(header_len() + 4 * fds.len()) + header_len() {
        law_last_message(k, k.socket, k.rights, fd_bytes(fds), tail);
    } else {
        law_message_before_zeros(k, k.socket, k.rights, fd_bytes(fds), tail.len());
    }
}

/// Back to back: the bytes of two rights messages, the first padded to a word
/// boundary, decode to the two messages in their order, each with its own file
/// descriptors, and then the walk ends.
pub proof fn law_two_rights_round_trip(k: Kinds, first: Seq<i32>, second: Seq<i32>, tail: Seq<u8>)
    requires
        header_len() + 4 * first.len() <= usize::MAX,
        header_len() + 4 * second.len() <= usize::MAX,
        tail.len() < padding(header_len() + 4 * second.len()) + header_len() || tail == zeros(
            tail.len(),
        ),
    ensures
        messages(
            k,
            frame(k.socket, k.rights, fd_bytes(first)) + zeros(
                padding(header_len() + 4 * first.len()),
            ) + (frame(k.socket, k.rights, fd_bytes(second)) + tail),
        ) == seq![Message::Rights(first), Message::Rights(second)],
        walkable(
            k,
            frame(k.socket, k.rights, fd_bytes(first)) + zeros(
                padding(header_len() + 4 * first.len()),
            ) + (frame(k.socket, k.rights, fd_bytes(second)) + tail),
        ),
{
    lemma_fd_bytes(first);
    law_fds_round_trip(first);
    law_rights_round_trip(k, second, tail);
    law_message_then_rest(
        k,
        k.socket,
        k.rights,
        fd_bytes(first),
        zeros(padding(header_len() + 4 * first.len())),
        frame(k.socket, k.rights, fd_bytes(second)) + tail,
    );
    assert(seq![Message::Rights(first)] + seq![Message::Rights(second)] =~= seq![
        Message::Rights(first),
        Message::Rights(second),
    ]);
}

/// What is left of zero bytes behind the first `m` of them is zero bytes.
pub proof fn lemma_behind_zeros(n: nat, m: nat)
    ensures
        behind(zeros(n), m) == zeros(
            if m <= n {
                (n - m) as nat
            } else {
                0
            },
        ),
{
    assert(behind(zeros(n), m) =~= zeros(
        if m <= n {
            (n - m) as nat
        } else {
            0
        },
    ));
}

/// Round trip through a sink: where a builder on a word boundary appends one
/// rights message that fits, to a sink whose storage holds `ahead` zero bytes
/// and nothing before them, the storage then decodes to that one message with
/// the same file descriptors and nothing more, and the walk can decode all it
/// comes to. A sink that grows has no such bytes; a zeroed buffer has as many
/// as it has room.
pub proof fn law_rights_through_sink(k: Kinds, fds: Seq<i32>, room: nat, ahead: nat)
    requires
        room <= usize::MAX,
        fits(0, room, fd_bytes(fds).len()),
    ensures
        ({
            let added = appended(0, room, k.socket, k.rights, fd_bytes(fds));
            let storage = added + behind(zeros(ahead), added.len());
            &&& messages(k, storage) == seq![Message::Rights(fds)]
            &&& walkable(k, storage)
        }),
{
    lemma_fd_bytes(fds);
    law_first_append_is_the_message(room, k.socket, k.rights, fd_bytes(fds));
    let added = appended(0, room, k.socket, k.rights, fd_bytes(fds));
    lemma_frame_fields(k.socket, k.rights, fd_bytes(fds), Seq::empty());
    lemma_behind_zeros(ahead, added.len());
    let tail = behind(zeros(ahead), added.len());
    law_rights_round_trip(k, fds, tail);
}

/// Back to back through a sink: where a builder on a word boundary appends two
/// rights messages that fit, to a sink whose storage holds `ahead` zero bytes
/// and nothing before them, the storage then decodes to the two messages in
/// their order, each with its own file descriptors, and nothing more.
pub proof fn law_two_rights_through_sink(
    k: Kinds,
    first: Seq<i32>,
    second: Seq<i32>,
    room: nat,
    ahead: nat,
)
    requires
        room <= usize::MAX,
        fits(0, room, fd_bytes(first).len()),
        fits(
            appended(0, room, k.socket, k.rights, fd_bytes(first)).len(),
            (room - appended(0, room, k.socket, k.rights, fd_bytes(first)).len()) as nat,
            fd_bytes(second).len(),
        ),
    ensures
        ({
            let one = appended(0, room, k.socket, k.rights, fd_bytes(first));
            let two = appended(
                one.len(),
                (room - one.len()) as nat,
                k.socket,
                k.rights,
                fd_bytes(second),
            );
            let storage = one + two + behind(zeros(ahead), one.len() + two.len());
            &&& messages(k, storage) == seq![Message::Rights(first), Message::Rights(second)]
            &&& walkable(k, storage)
        }),
{
    lemma_fd_bytes(first);
    lemma_fd_bytes(second);
    law_first_append_is_the_message(room, k.socket, k.rights, fd_bytes(first));
    lemma_frame_fields(k.socket, k.rights, fd_bytes(first), Seq::empty());
    lemma_frame_fields(k.socket, k.rights, fd_bytes(second), Seq::empty());
    let one = appended(0, room, k.socket, k.rights, fd_bytes(first));
    let two = appended(one.len(), (room - one.len()) as nat, k.socket, k.rights, fd_bytes(second));
    let pad = zeros(padding(header_len() + 4 * first.len()));
    let tail = behind(zeros(ahead), one.len() + two.len());
    lemma_behind_zeros(ahead, one.len() + two.len());
    lemma_align_up(header_len() + 4 * first.len());
    law_two_rights_round_trip(k, first, second, tail);
    assert(one + two + tail =~= frame(k.socket, k.rights, fd_bytes(first)) + pad + (frame(
        k.socket,
        k.rights,
        fd_bytes(second),
    ) + tail));
}

/// Decoding is repeatable: two walks over the same bytes with the same kinds
/// yield the same messages, step by step and as a whole.
pub proof fn law_decoding_is_repeatable(a: ControlMsgIter, b: ControlMsgIter)
    requires
        a.remaining() == b.remaining(),
        a.kinds() == b.kinds(),
    ensures
        a@ == b@,
        first_message(a.kinds(), a.remaining()) == first_message(b.kinds(), b.remaining()),
        after_first(a.remaining()) == after_first(b.remaining()),
        head_valid(a.kinds(), a.remaining()) == head_valid(b.kinds(), b.remaining()),
{
}

/// What a builder on a word boundary adds for a message that fits is the
/// message itself, without padding before it.
pub proof fn law_first_append_is_the_message(room: nat, level: i32, kind: i32, payload: Seq<u8>)
    requires
        fits(0, room, payload.len()),
    ensures
        appended(0, room, level, kind, payload) == frame(level, kind, payload),
{
    lemma_align_up(0);
    lemma_word_len();
    assert(zeros(0) + frame(level, kind, payload) =~= frame(level, kind, payload));
}

} // verus!
