//! What travels on a path.

use vstd::prelude::*;

use crate::recv::StreamAck;

verus! {

/// Where the far end is to connect a stream to.
pub struct Target {
    pub host: String,
    pub port: u16,
}

#[derive(Clone, Copy, Debug, PartialEq, Eq, Structural)]
pub enum ResetReason {
    DialFailed,
    Timeout,
    PeerReset,
    SessionDead,
    Protocol,
    Unknown,
}

pub enum Frame {
    Ping { seq: u64, sent_at_ms: u64 },
    Pong { seq: u64, sent_at_ms: u64 },
    StreamOpen { stream_id: u32, target: Target },
    StreamData { stream_id: u32, offset: u64, data: Vec<u8> },
    StreamAck(StreamAck),
    StreamClose { stream_id: u32, final_offset: Option<u64> },
    StreamReset { stream_id: u32, reason: ResetReason },
    SessionClose,
}

impl Frame {
    pub open spec fn is_data(self) -> bool {
        self is StreamData
    }

    /// Payload bytes of a STREAM_DATA, none of any other frame.
    pub open spec fn payload_len(self) -> nat {
        match self {
            Frame::StreamData { data, .. } => data@.len(),
            _ => 0,
        }
    }

    /// A STREAM_DATA of these bytes.
    pub open spec fn carries(self, id: u32, off: u64, bytes: Seq<u8>) -> bool {
        match self {
            Frame::StreamData { stream_id, offset, data } => stream_id == id && offset == off
                && data@ == bytes,
            _ => false,
        }
    }

    pub fn data_len(&self) -> (r: usize)
        ensures
            r == self.payload_len(),
    {
        match self {
            Frame::StreamData { data, .. } => data.len(),
            _ => 0,
        }
    }

    pub fn is_stream_data(&self) -> (r: bool)
        ensures
            r == self.is_data(),
    {
        match self {
            Frame::StreamData { .. } => true,
            _ => false,
        }
    }
}

/// A copy of some bytes.
pub fn copy_bytes(s: &Vec<u8>) -> (r: Vec<u8>)
    ensures
        r@ == s@,
{
    let mut r: Vec<u8> = Vec::new();
    let mut i: usize = 0;
    while i < s.len()
        invariant
            i <= s.len(),
            r@ == s@.take(i as int),
        decreases s.len() - i,
    {
        r.push(s[i]);
        i += 1;
    }
    assert(s@.take(s.len() as int) == s@);
    r
}

/// The same host and port.
pub open spec fn same_target(a: Target, b: Target) -> bool {
    a.host@ == b.host@ && a.port == b.port
}

pub fn copy_target(t: &Target) -> (r: Target)
    ensures
        same_target(r, *t),
{
    Target { host: t.host.clone(), port: t.port }
}

} // verus!
