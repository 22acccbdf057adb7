//! Communication between endpoints.
//!
//! The `socket` module deals with *network endpoints* and *buffering*. It provides
//! interfaces for accessing buffers of data, and protocol state machines for filling
//! and emptying these buffers.
//!
//! The programming interface implemented here differs greatly from the common
//! Berkeley socket interface. Specifically, in the Berkeley interface the buffering
//! is implicit: the operating system decides on the good size for a buffer and
//! manages it. The interface implemented by this module uses explicit buffering:
//! you decide on the good size for a buffer, allocate it, and let the networking
//! stack use it.

pub mod raw;

use vstd::prelude::*;

use crate::time::Instant;

verus! {

/// Indicates when a socket should be polled next.
#[derive(Debug, PartialEq, Eq, Clone, Copy)]
pub enum PollAt {
    /// The socket needs to be polled immediately.
    Now,
    /// The socket needs to be polled at given [Instant][struct.Instant].
    Time(Instant),
    /// The socket does not need to be polled unless there are external changes.
    Ingress,
}

/// A network socket.
///
/// This enumeration abstracts the various types of sockets, so that they can be
/// stored in a collection. It provides a common interface for polling the sockets.
/// To downcast a `Socket` value to a concrete socket, use the [AnySocket] trait,
/// e.g. to get `raw::Socket`, call `raw::Socket::downcast(socket)`.
///
/// [AnySocket]: trait.AnySocket.html
#[derive(Debug)]
pub enum Socket {
    Raw(raw::Socket),
}

impl Socket {
    /// Return the socket polling time: see [raw::Socket::poll_at].
    pub fn poll_at(&self) -> (r: PollAt)
        requires
            match self {
                Socket::Raw(s) => s.wf(),
            },
        ensures
            match self {
                Socket::Raw(s) => r == if s.tx().metadata()@.len() == 0 {
                    PollAt::Ingress
                } else {
                    PollAt::Now
                },
            },
    {
        match self {
            Socket::Raw(s) => s.poll_at(),
        }
    }
}

/// A conversion trait for network sockets.
pub trait AnySocket: Sized {
    /// Wrap the socket into the enumeration of sockets.
    fn upcast(self) -> Socket;

    /// The socket of this type, if `socket` holds one.
    fn downcast(socket: &Socket) -> Option<&Self>;

    /// The socket of this type, mutable, if `socket` holds one.
    fn downcast_mut(socket: &mut Socket) -> Option<&mut Self>;
}

impl AnySocket for raw::Socket {
    fn upcast(self) -> (r: Socket)
        ensures
            r == Socket::Raw(self),
    {
        Socket::Raw(self)
    }

    fn downcast(socket: &Socket) -> (r: Option<&raw::Socket>)
        ensures
            match socket {
                Socket::Raw(s) => r == Some(s),
            },
    {
        match socket {
            Socket::Raw(socket) => Some(socket),
        }
    }

    fn downcast_mut(socket: &mut Socket) -> (r: Option<&mut raw::Socket>)
        ensures
            r is Some,
            match *old(socket) {
                Socket::Raw(s) => *r->Some_0 == s,
            },
            *final(socket) == Socket::Raw(*final(r->Some_0)),
    {
        match socket {
            Socket::Raw(socket) => Some(socket),
        }
    }
}

} // verus!
