//! Which way a packet travels.
use vstd::prelude::*;

verus! {

/// The way a packet travels between the server and a client.
#[derive(Debug, Clone, Copy, PartialEq, Eq)]
pub enum Direction {
    /// From the server to the client.
    Clientbound,
    /// From the client to the server.
    Serverbound,
}

impl Direction {
    /// The name used in messages.
    pub fn as_str(&self) -> (s: &'static str)
        ensures
            s@ == (match self {
                Direction::Clientbound => "clientbound"@,
                Direction::Serverbound => "serverbound"@,
            }),
    {
        match self {
            Direction::Clientbound => "clientbound",
            Direction::Serverbound => "serverbound",
        }
    }
}

} // verus!
