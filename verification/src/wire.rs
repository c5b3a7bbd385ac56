//! The layout of a control-message area: headers, alignment and padding.
//!
//! A message is a header followed by its payload. The header holds the length of
//! header and payload together as a machine word, then the level and the kind of
//! the message as signed 32-bit integers. Every header starts on a word boundary,
//! so zero bytes may stand between a payload and the next header.

use crate::native::{
    i32_bytes, i32_value, lemma_i32_round_trip, lemma_word_len, lemma_word_round_trip, word_bytes,
    word_len, word_size, word_value, write_i32, write_word,
};
use vstd::prelude::*;

verus! {

/// The number of bytes in a header.
pub open spec fn header_len() -> nat {
    word_len() + 8
}

/// The least multiple of the word size that is not below `n`.
pub open spec fn align_up(n: nat) -> nat {
    if n % word_len() == 0 {
        n
    } else {
        (n + word_len() - n % word_len()) as nat
    }
}

/// The number of bytes between offset `n` and the next word boundary.
pub open spec fn padding(n: nat) -> nat {
    (align_up(n) - n) as nat
}

/// `n` zero bytes.
pub open spec fn zeros(n: nat) -> Seq<u8> {
    Seq::new(n, |i: int| 0u8)
}

/// The bytes of a header.
pub open spec fn header_bytes(len: usize, level: i32, kind: i32) -> Seq<u8> {
    word_bytes(len) + i32_bytes(level) + i32_bytes(kind)
}

/// The length that the header at the start of `b` declares.
pub open spec fn declared_len(b: Seq<u8>) -> usize {
    word_value(b.subrange(0, word_len() as int))
}

/// The level that the header at the start of `b` declares.
pub open spec fn declared_level(b: Seq<u8>) -> i32 {
    i32_value(b.subrange(word_len() as int, (word_len() + 4) as int))
}

/// The kind that the header at the start of `b` declares.
pub open spec fn declared_kind(b: Seq<u8>) -> i32 {
    i32_value(b.subrange((word_len() + 4) as int, (word_len() + 8) as int))
}

/// A message on the wire: its header, then its payload.
pub open spec fn frame(level: i32, kind: i32, payload: Seq<u8>) -> Seq<u8> {
    header_bytes((header_len() + payload.len()) as usize, level, kind) + payload
}

/// The remainder by the word size is the remainder by four or by eight.
pub proof fn lemma_mod_word(n: nat)
    ensures
        word_len() == 4 ==> n % word_len() == n % 4,
        word_len() == 8 ==> n % word_len() == n % 8,
        word_len() == 4 || word_len() == 8,
{
    lemma_word_len();
    let w = word_len();
    if w == 4 {
        assert(n % w == n % 4) by (nonlinear_arith)
            requires
                w == 4,
        ;
    } else {
        assert(n % w == n % 8) by (nonlinear_arith)
            requires
                w == 8,
        ;
    }
}

/// What `align_up` promises: a word boundary, reached within one word.
pub proof fn lemma_align_up(n: nat)
    ensures
        align_up(n) % word_len() == 0,
        n <= align_up(n) < n + word_len(),
        n % word_len() == 0 ==> align_up(n) == n,
        padding(n) < word_len(),
        n + padding(n) == align_up(n),
{
    lemma_mod_word(n);
    lemma_mod_word(align_up(n));
}

/// A header ends on a word boundary wherever it starts on one.
pub proof fn lemma_header_keeps_alignment(n: nat)
    requires
        n % word_len() == 0,
    ensures
        (n + header_len()) % word_len() == 0,
        align_up(n + header_len()) == n + header_len(),
        padding(n + header_len()) == 0,
        align_up(header_len()) == header_len(),
{
    lemma_mod_word(n);
    lemma_mod_word(n + header_len());
    lemma_mod_word(header_len());
}

/// The three fields of a header can be read back from its bytes, whatever follows them.
pub proof fn lemma_header_round_trip(len: usize, level: i32, kind: i32, rest: Seq<u8>)
    ensures
        header_bytes(len, level, kind).len() == header_len(),
        declared_len(header_bytes(len, level, kind) + rest) == len,
        declared_level(header_bytes(len, level, kind) + rest) == level,
        declared_kind(header_bytes(len, level, kind) + rest) == kind,
{
    lemma_word_round_trip(len);
    lemma_i32_round_trip(level);
    lemma_i32_round_trip(kind);
    let w = word_len() as int;
    let b = header_bytes(len, level, kind) + rest;
    assert(b.subrange(0, w) =~= word_bytes(len));
    assert(b.subrange(w, w + 4) =~= i32_bytes(level));
    assert(b.subrange(w + 4, w + 8) =~= i32_bytes(kind));
}

/// `libc::cmsghdr`, the header of a control message as the platform's C library
/// declares it. Only its size and alignment are asked for.
#[verifier::external_type_specification]
#[verifier::external_body]
pub struct ExCmsghdr(libc::cmsghdr);

/// `libc::ucred`, the platform's record of peer credentials. Only its size is
/// asked for.
#[verifier::external_type_specification]
#[verifier::external_body]
pub struct ExUcred(libc::ucred);

/// `libc::timeval`, the platform's timestamp with microseconds. Only its size is
/// asked for.
#[verifier::external_type_specification]
#[verifier::external_body]
pub struct ExTimeval(libc::timeval);

/// `libc::timespec`, the platform's timestamp with nanoseconds. Only its size is
/// asked for.
#[verifier::external_type_specification]
#[verifier::external_body]
pub struct ExTimespec(libc::timespec);

/// Whether the platform's C library lays control messages out as this library
/// does: a header of one word and eight bytes on a word boundary, credentials of
/// twelve bytes, and timestamps of two words.
pub open spec fn platform_agrees() -> bool {
    &&& vstd::layout::size_of::<libc::cmsghdr>() == header_len()
    &&& vstd::layout::align_of::<libc::cmsghdr>() == word_len()
    &&& vstd::layout::size_of::<libc::ucred>() == 12
    &&& vstd::layout::size_of::<libc::timeval>() == 2 * word_len()
    &&& vstd::layout::size_of::<libc::timespec>() == 2 * word_len()
}

/// Whether the platform's C library lays control messages out as this library
/// does. Where it does not, areas of this library are not areas of the platform.
pub fn matches_platform() -> (ok: bool)
    ensures
        ok == platform_agrees(),
{
    let word = word_size();
    core::mem::size_of::<libc::cmsghdr>() == word + 8 && core::mem::align_of::<libc::cmsghdr>()
        == word && core::mem::size_of::<libc::ucred>() == 12 && core::mem::size_of::<
        libc::timeval,
    >() == 2 * word && core::mem::size_of::<libc::timespec>() == 2 * word
}

/// The size of a header in bytes.
pub fn header_size() -> (r: usize)
    ensures
        r == header_len(),
        r == 12 || r == 16,
{
    word_size() + 8
}

/// The number of bytes to skip from offset `len` to the next word boundary.
pub fn padding_for(len: usize) -> (r: usize)
    ensures
        r == padding(len as nat),
        r < word_len(),
{
    let word = word_size();
    proof {
        lemma_align_up(len as nat);
        lemma_mod_word(len as nat);
    }
    let over = len % word;
    if over == 0 {
        0
    } else {
        word - over
    }
}

/// Rounds `len` up to the next word boundary.
pub fn align(len: usize) -> (r: usize)
    requires
        align_up(len as nat) <= usize::MAX,
    ensures
        r == align_up(len as nat),
{
    proof {
        lemma_align_up(len as nat);
    }
    len + padding_for(len)
}

/// The length of a message with a payload of `len` bytes, where a machine word can hold it.
pub fn len(payload: usize) -> (r: Option<usize>)
    ensures
        r == if header_len() + payload <= usize::MAX {
            Some((header_len() + payload) as usize)
        } else {
            None
        },
{
    header_size().checked_add(payload)
}

/// The bytes of a header.
pub fn encode_header(len: usize, level: i32, kind: i32) -> (out: Vec<u8>)
    ensures
        out@ == header_bytes(len, level, kind),
        out@.len() == header_len(),
{
    let mut out: Vec<u8> = Vec::new();
    write_word(&mut out, len);
    write_i32(&mut out, level);
    write_i32(&mut out, kind);
    proof {
        lemma_header_round_trip(len, level, kind, Seq::empty());
        assert(out@ =~= header_bytes(len, level, kind));
    }
    out
}

} // verus!
