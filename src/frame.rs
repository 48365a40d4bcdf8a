use vstd::prelude::*;

use crate::address::Token;

verus! {

/// Frame type of PATH_CHALLENGE on the wire.
pub const PATH_CHALLENGE_TYPE: u64 = 0x1a;

/// Frame type of PATH_RESPONSE on the wire.
pub const PATH_RESPONSE_TYPE: u64 = 0x1b;

/// The two path validation frames, each carrying an eight-byte token.
#[derive(Debug, Clone, Copy)]
pub enum Frame {
    PathChallenge { data: Token },
    PathResponse { data: Token },
}

impl Frame {
    /// The frame's type code on the wire.
    pub fn frame_type(&self) -> (r: u64)
        ensures
            self is PathChallenge ==> r == PATH_CHALLENGE_TYPE,
            self is PathResponse ==> r == PATH_RESPONSE_TYPE,
    {
        match self {
            Frame::PathChallenge { .. } => PATH_CHALLENGE_TYPE,
            Frame::PathResponse { .. } => PATH_RESPONSE_TYPE,
        }
    }

    /// The token that the frame carries.
    pub fn data(&self) -> (r: Token)
        ensures
            match *self {
                Frame::PathChallenge { data } => r == data,
                Frame::PathResponse { data } => r == data,
            },
    {
        match self {
            Frame::PathChallenge { data } => *data,
            Frame::PathResponse { data } => *data,
        }
    }
}

} // verus!
