//! The numbers by which the platform tells the kinds of control messages apart.

use vstd::prelude::*;

verus! {

/// The level and the message types that the decoder interprets and the encoder
/// writes. Their values differ between platforms, so the library reads them from
/// the platform's C library and states its contracts for any values.
#[derive(Clone, Copy, Debug, PartialEq, Eq, Structural)]
pub struct Kinds {
    /// The level of socket-level messages (`SOL_SOCKET`).
    pub socket: i32,
    /// The type of a message that passes file descriptors (`SCM_RIGHTS`).
    pub rights: i32,
    /// The type of a message that carries peer credentials (`SCM_CREDENTIALS`).
    pub credentials: i32,
    /// The type of a timestamp with microseconds (`SCM_TIMESTAMP`).
    pub timestamp: i32,
    /// The type of a timestamp with nanoseconds (`SCM_TIMESTAMPNS`).
    pub timestamp_ns: i32,
}

/// The constants `SOL_SOCKET`, `SCM_RIGHTS`, `SCM_CREDENTIALS`, `SCM_TIMESTAMP` and
/// `SCM_TIMESTAMPNS` of the `libc` crate. Nothing is claimed of their values.
#[verifier::external_body]
fn libc_kinds() -> Kinds {
    Kinds {
        socket: libc::SOL_SOCKET,
        rights: libc::SCM_RIGHTS,
        credentials: libc::SCM_CREDENTIALS,
        timestamp: libc::SCM_TIMESTAMP,
        timestamp_ns: libc::SCM_TIMESTAMPNS,
    }
}

impl Kinds {
    /// The numbers of the platform that the library was built for.
    pub fn native() -> Kinds {
        libc_kinds()
    }

    /// Whether `(level, kind)` names a message that passes file descriptors.
    pub open spec fn is_rights(self, level: i32, kind: i32) -> bool {
        level == self.socket && kind == self.rights
    }

    /// Whether `(level, kind)` names a message that carries peer credentials.
    pub open spec fn is_credentials(self, level: i32, kind: i32) -> bool {
        !self.is_rights(level, kind) && level == self.socket && kind == self.credentials
    }

    /// Whether `(level, kind)` names a timestamp with microseconds.
    pub open spec fn is_timestamp(self, level: i32, kind: i32) -> bool {
        !self.is_rights(level, kind) && !self.is_credentials(level, kind) && level == self.socket
            && kind == self.timestamp
    }

    /// Whether `(level, kind)` names a timestamp with nanoseconds.
    pub open spec fn is_timestamp_ns(self, level: i32, kind: i32) -> bool {
        !self.is_rights(level, kind) && !self.is_credentials(level, kind) && !self.is_timestamp(
            level,
            kind,
        ) && level == self.socket && kind == self.timestamp_ns
    }
}

} // verus!
