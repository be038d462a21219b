//! Length-prefixed frames, which carry the handshake.

use vstd::prelude::*;

use crate::invite;

verus! {

/// The largest body that a frame may carry.
pub const MAX_FRAME_BYTES: u32 = 65536;

/// A frame: the length of the body in four bytes, the least significant first,
/// then the body. A body that is too large has none.
pub open spec fn framed(body: Seq<u8>) -> Result<Seq<u8>, Seq<char>> {
    if body.len() > MAX_FRAME_BYTES {
        Err("handshake frame too large"@)
    } else {
        Ok(invite::le32(body.len() as u32) + body)
    }
}

/// The number that four bytes stand for, the least significant first.
pub open spec fn le32_value(header: Seq<u8>) -> int {
    header[0] + 256 * header[1] + 65536 * header[2] + 16777216 * header[3]
}

/// The length of the body that a frame's header announces.
pub open spec fn announced(header: Seq<u8>) -> Result<int, Seq<char>> {
    if le32_value(header) > MAX_FRAME_BYTES {
        Err("handshake frame too large"@)
    } else {
        Ok(le32_value(header))
    }
}

/// The frame that carries `body`.
pub fn write_frame(body: &[u8]) -> (r: Result<Vec<u8>, String>)
    ensures
        match r {
            Ok(frame) => framed(body@) == Ok::<Seq<u8>, Seq<char>>(frame@),
            Err(e) => framed(body@) == Err::<Seq<u8>, Seq<char>>(e@),
        },
{
    if body.len() as u64 > MAX_FRAME_BYTES as u64 {
        return Err("handshake frame too large".to_owned());
    }
    let mut frame: Vec<u8> = Vec::new();
    invite::write_field(&mut frame, body);
    assert(frame@ == invite::le32(body@.len() as u32) + body@);
    Ok(frame)
}

/// How many bytes to read after a frame's header.
pub fn read_length(header: &[u8; 4]) -> (r: Result<u32, String>)
    ensures
        match r {
            Ok(n) => announced(header@) == Ok::<int, Seq<char>>(n as int),
            Err(e) => announced(header@) == Err::<int, Seq<char>>(e@),
        },
{
    let len: u32 = header[0] as u32 + 256 * header[1] as u32 + 65536 * header[2] as u32 + 16777216
        * header[3] as u32;
    if len > MAX_FRAME_BYTES {
        return Err("handshake frame too large".to_owned());
    }
    Ok(len)
}

/// What is written is read back: the header of a frame announces exactly the
/// bytes that follow it, and they are the body.
pub proof fn frames_read_back(body: Seq<u8>)
    requires
        framed(body) is Ok,
    ensures
        announced(framed(body)->Ok_0.take(4)) == Ok::<int, Seq<char>>(body.len() as int),
        framed(body)->Ok_0.skip(4) == body,
{
    let frame = framed(body)->Ok_0;
    let header = invite::le32(body.len() as u32);
    assert(frame.take(4) == header);
    assert(frame.skip(4) == body);
    invite::lemma_le32_sum(body.len() as u32);
}

/// A body fits a frame up to 65536 bytes, and no frame announces more. The frame
/// is four bytes longer than its body, and the four bytes, weighted by their
/// places with the least significant first, give its length.
pub proof fn frames_have_a_limit(body: Seq<u8>, header: Seq<u8>)
    requires
        header.len() == 4,
    ensures
        framed(body) is Ok <==> body.len() <= 65536,
        announced(header) is Ok <==> header[0] + 0x100 * header[1] + 0x1_0000 * header[2]
            + 0x100_0000 * header[3] <= 65536,
        announced(header) matches Ok(n) ==> n == header[0] + 0x100 * header[1] + 0x1_0000
            * header[2] + 0x100_0000 * header[3],
        framed(body) matches Ok(frame) ==> frame.len() == 4 + body.len() && body.len() == frame[0]
            + 0x100 * frame[1] + 0x1_0000 * frame[2] + 0x100_0000 * frame[3] && frame.skip(4)
            == body,
{
    if body.len() <= 65536 {
        frames_read_back(body);
        let frame = framed(body)->Ok_0;
        let head = frame.take(4);
        assert(head[0] == frame[0] && head[1] == frame[1] && head[2] == frame[2] && head[3]
            == frame[3]);
    }
}

} // verus!
