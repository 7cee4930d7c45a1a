//! What can go wrong around the hub, and what each fault ends.

use vstd::prelude::*;

verus! {

/// The faults that the hub tells apart.
#[derive(Clone, Copy, Debug, PartialEq, Eq, Structural)]
pub enum Fault {
    /// A record could not be decoded. The record is skipped and the
    /// connection stays open.
    MalformedMessage,
    /// Reading from or writing to a connection failed. That session ends;
    /// no other session is touched.
    LinkBroken,
    /// A command was addressed to a robot that is not registered. The
    /// command is dropped.
    UnknownRoute,
}

impl Fault {
    /// The session in which the fault arose goes on.
    pub open spec fn recoverable(self) -> bool {
        self != Fault::LinkBroken
    }

    /// Whether the session in which the fault arose goes on.
    pub fn is_recoverable(&self) -> (r: bool)
        ensures
            r == self.recoverable(),
    {
        match self {
            Fault::MalformedMessage => true,
            Fault::LinkBroken => false,
            Fault::UnknownRoute => true,
        }
    }
}

} // verus!
