//! The chunk transport frame codec. A chunk travels as a 4-byte magic
//! number, a 2-byte big-endian length, and that many payload bytes; the
//! receiving side answers every chunk with a 5-byte acknowledgement that
//! either accepts the chunk or terminates the connection.

use vstd::prelude::*;

verus! {

/// Largest payload a single chunk can carry.
pub const CHUNK_MAX_SIZE: usize = 65535;

/// The error of this module: a broken frame or acknowledgement.
#[derive(Debug)]
pub struct ChunktpError {
    description: String,
}

impl View for ChunktpError {
    type V = Seq<char>;

    closed spec fn view(&self) -> Seq<char> {
        self.description@
    }
}

impl ChunktpError {
    /// Wrap a description into an error value.
    pub fn new(description: &str) -> (ret: Self)
        ensures
            ret@ == description@,
    {
        ChunktpError { description: description.to_owned() }
    }

    /// The description this error carries.
    pub fn description(&self) -> (ret: &str)
        ensures
            ret@ == self@,
    {
        self.description.as_str()
    }
}

/// The 4 magic bytes that open every frame.
pub open spec fn magic_seq() -> Seq<u8> {
    seq![0xdeu8, 0xadu8, 0xbeu8, 0xefu8]
}

/// The 5-byte acknowledgement that accepts a chunk.
pub open spec fn ack_ok_seq() -> Seq<u8> {
    seq![0xdeu8, 0xadu8, 0xbeu8, 0xefu8, 0xacu8]
}

/// The 5-byte acknowledgement that terminates the transport.
pub open spec fn ack_terminate_seq() -> Seq<u8> {
    seq![0xcau8, 0xfeu8, 0xbau8, 0xbeu8, 0xffu8]
}

/// The frame that carries a payload: magic, the payload length in two
/// big-endian bytes, then the payload itself.
pub open spec fn frame_bytes(p: Seq<u8>) -> Seq<u8> {
    magic_seq() + seq![(p.len() / 256) as u8, (p.len() % 256) as u8] + p
}

/// Frame round trip: the frame of a payload opens with the magic bytes,
/// its two length bytes decode to the payload length, and the rest is
/// the payload itself — so reading a written chunk yields the payload
/// back and the reader acknowledges with the accepting bytes.
pub proof fn lemma_frame_round_trip(p: Seq<u8>)
    requires
        p.len() <= CHUNK_MAX_SIZE,
    ensures
        frame_bytes(p).len() == 6 + p.len(),
        frame_bytes(p).subrange(0, 4) == magic_seq(),
        frame_bytes(p)[4] * 256 + frame_bytes(p)[5] == p.len(),
        frame_bytes(p).skip(6) == p,
{
    assert(frame_bytes(p).subrange(0, 4) =~= magic_seq());
    assert(frame_bytes(p).skip(6) =~= p);
    assert((p.len() as int / 256) * 256 + p.len() as int % 256 == p.len()) by {
        vstd::arithmetic::div_mod::lemma_fundamental_div_mod(p.len() as int, 256);
    }
}

/// Build the frame for one chunk of payload.
pub fn frame_encode(data: &Vec<u8>) -> (ret: Vec<u8>)
    requires
        data@.len() <= CHUNK_MAX_SIZE,
    ensures
        ret@ == frame_bytes(data@),
{
    let mut ret: Vec<u8> = Vec::new();
    ret.push(0xde);
    ret.push(0xad);
    ret.push(0xbe);
    ret.push(0xef);
    let size = data.len();
    ret.push((size / 256) as u8);
    ret.push((size % 256) as u8);
    let mut i: usize = 0;
    let len = data.len();
    while i < len
        invariant
            i <= len,
            len == data@.len(),
            ret@ == frame_bytes(data@).take(6 + i),
            frame_bytes(data@).len() == 6 + len,
        decreases len - i,
    {
        ret.push(data[i]);
        proof {
            assert(frame_bytes(data@).take(6 + i + 1) =~= frame_bytes(data@).take(6 + i).push(
                data@[i as int],
            ));
        }
        i += 1;
    }
    proof {
        assert(frame_bytes(data@).take(6 + len) =~= frame_bytes(data@));
    }
    ret
}

/// What the first six bytes of a frame announce: the payload length, or
/// a magic mismatch.
pub fn parse_frame_header(header: &[u8; 6]) -> (ret: Result<usize, ChunktpError>)
    ensures
        match ret {
            Ok(size) => header@.subrange(0, 4) == magic_seq() && size == header@[4] * 256
                + header@[5] && size <= CHUNK_MAX_SIZE,
            Err(_) => header@.subrange(0, 4) != magic_seq(),
        },
{
    if header[0] == 0xde && header[1] == 0xad && header[2] == 0xbe && header[3] == 0xef {
        let size = header[4] as usize * 256 + header[5] as usize;
        proof {
            assert(header@.subrange(0, 4) =~= magic_seq());
        }
        Ok(size)
    } else {
        proof {
            assert(header@.subrange(0, 4)[0] == header@[0]);
            assert(header@.subrange(0, 4)[1] == header@[1]);
            assert(header@.subrange(0, 4)[2] == header@[2]);
            assert(header@.subrange(0, 4)[3] == header@[3]);
        }
        Err(ChunktpError::new("incorrect chunktp magic!"))
    }
}

/// The accepting acknowledgement, ready to send.
pub fn ack_ok_bytes() -> (ret: Vec<u8>)
    ensures
        ret@ == ack_ok_seq(),
{
    let mut ret: Vec<u8> = Vec::new();
    ret.push(0xde);
    ret.push(0xad);
    ret.push(0xbe);
    ret.push(0xef);
    ret.push(0xac);
    proof {
        assert(ret@ =~= ack_ok_seq());
    }
    ret
}

/// The terminating acknowledgement, ready to send.
pub fn ack_terminate_bytes() -> (ret: Vec<u8>)
    ensures
        ret@ == ack_terminate_seq(),
{
    let mut ret: Vec<u8> = Vec::new();
    ret.push(0xca);
    ret.push(0xfe);
    ret.push(0xba);
    ret.push(0xbe);
    ret.push(0xff);
    proof {
        assert(ret@ =~= ack_terminate_seq());
    }
    ret
}

/// How a writer must treat the 5 acknowledgement bytes it read back.
#[derive(Copy, Clone, Debug, PartialEq, Eq)]
pub enum AckKind {
    Accepted,
    Terminated,
    Unknown,
}

/// Classify an acknowledgement: accepted, terminated, or neither.
pub fn classify_ack(reply: &[u8; 5]) -> (ret: AckKind)
    ensures
        match ret {
            AckKind::Accepted => reply@ == ack_ok_seq(),
            AckKind::Terminated => reply@ == ack_terminate_seq(),
            AckKind::Unknown => reply@ != ack_ok_seq() && reply@ != ack_terminate_seq(),
        },
{
    proof {
        assert(reply@.len() == 5);
    }
    if reply[0] == 0xde && reply[1] == 0xad && reply[2] == 0xbe && reply[3] == 0xef && reply[4]
        == 0xac {
        proof {
            assert(reply@ =~= ack_ok_seq());
        }
        AckKind::Accepted
    } else if reply[0] == 0xca && reply[1] == 0xfe && reply[2] == 0xba && reply[3] == 0xbe
        && reply[4] == 0xff {
        proof {
            assert(reply@ =~= ack_terminate_seq());
        }
        AckKind::Terminated
    } else {
        AckKind::Unknown
    }
}

} // verus!
