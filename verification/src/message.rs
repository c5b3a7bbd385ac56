//! Decoded control messages.

use core::time::Duration;
use vstd::prelude::*;

verus! {

/// A control message of a kind that the decoder does not interpret: its level,
/// its type and its payload as it stands in the decoded area.
#[derive(Clone, Copy)]
pub struct CMsg<'a> {
    kind: i32,
    level: i32,
    data: &'a [u8],
}

impl<'a> CMsg<'a> {
    /// The type of the message, as the specification sees it.
    pub closed spec fn spec_kind(&self) -> i32 {
        self.kind
    }

    /// The level of the message, as the specification sees it.
    pub closed spec fn spec_level(&self) -> i32 {
        self.level
    }

    /// The payload of the message.
    pub closed spec fn payload(&self) -> Seq<u8> {
        self.data@
    }

    /// A message of the given level and type over the payload `data`.
    pub fn new(level: i32, kind: i32, data: &'a [u8]) -> (m: CMsg<'a>)
        ensures
            m.spec_level() == level,
            m.spec_kind() == kind,
            m.payload() == data@,
    {
        CMsg { kind, level, data }
    }

    /// The type of the message within its level.
    pub fn kind(&self) -> (r: i32)
        ensures
            r == self.spec_kind(),
    {
        self.kind
    }

    /// The level of the message.
    pub fn level(&self) -> (r: i32)
        ensures
            r == self.spec_level(),
    {
        self.level
    }
}

impl<'a> AsRef<[u8]> for CMsg<'a> {
    fn as_ref(&self) -> (r: &[u8])
        ensures
            r@ == self.payload(),
    {
        self.data
    }
}

impl<'a> core::ops::Deref for CMsg<'a> {
    type Target = [u8];

    fn deref(&self) -> (r: &[u8])
        ensures
            r@ == self.payload(),
    {
        self.data
    }
}

/// The identity of the process at the other end of a socket.
#[derive(Clone, Copy, Debug, PartialEq, Eq, Structural)]
pub struct Ucred {
    /// The process id.
    pub pid: i32,
    /// The user id.
    pub uid: u32,
    /// The group id.
    pub gid: u32,
}

/// The duration that `Duration::new` makes of whole seconds and additional nanoseconds.
pub uninterp spec fn duration_of(secs: u64, nanos: u32) -> Duration;

/// `Duration::new`: the duration of `secs` seconds and `nanos` nanoseconds. It
/// carries whole seconds among the nanoseconds over, and the sum must fit.
#[verifier::external_body]
pub(crate) fn new_duration(secs: u64, nanos: u32) -> (d: Duration)
    requires
        secs + nanos / 1_000_000_000 <= u64::MAX,
    ensures
        d == duration_of(secs, nanos),
{
    Duration::new(secs, nanos)
}

/// A decoded control message.
pub enum ControlMsg<'a> {
    /// A message of a kind that the decoder does not interpret.
    Raw(CMsg<'a>),
    /// File descriptors passed by the sender.
    Rights(Vec<i32>),
    /// The time at which the kernel received the message.
    Timestamp(Duration),
    /// The identity of the sender.
    Credentials(Ucred),
}

/// What a control message says, apart from where its bytes are kept.
pub enum Message {
    /// A message of a kind that the decoder does not interpret.
    Raw { level: i32, kind: i32, data: Seq<u8> },
    /// File descriptors passed by the sender.
    Rights(Seq<i32>),
    /// The time at which the kernel received the message.
    Timestamp(Duration),
    /// The identity of the sender.
    Credentials(Ucred),
}

impl<'a> View for ControlMsg<'a> {
    type V = Message;

    open spec fn view(&self) -> Message {
        match *self {
            ControlMsg::Raw(m) => Message::Raw {
                level: m.spec_level(),
                kind: m.spec_kind(),
                data: m.payload(),
            },
            ControlMsg::Rights(fds) => Message::Rights(fds@),
            ControlMsg::Timestamp(d) => Message::Timestamp(d),
            ControlMsg::Credentials(c) => Message::Credentials(c),
        }
    }
}

} // verus!
