//! Decisions of the gRPC receiver.
//!
//! gRPC is HTTP/2 and a message frame of five bytes: a compression flag and
//! the length, high byte first. The message is handed to the pipeline as a
//! slice of the request body, without decoding it.

use crate::buffer;
use crate::server::Verdict;
use crate::text;
use bytes::Bytes;
use vstd::prelude::*;

verus! {

/// Path of the logs export method.
pub const LOGS_EXPORT_PATH: &'static str =
    "/opentelemetry.proto.collector.logs.v1.LogsService/Export";

/// What a content type starts with.
pub const GRPC_CONTENT_TYPE: &'static str = "application/grpc";

/// Bytes in front of a message.
pub const FRAME_HEADER: usize = 5;

pub const STATUS_OK: u8 = 0;

pub const STATUS_INVALID_ARGUMENT: u8 = 3;

pub const STATUS_RESOURCE_EXHAUSTED: u8 = 8;

pub const STATUS_UNIMPLEMENTED: u8 = 12;

pub const STATUS_UNAVAILABLE: u8 = 14;

/// The length that a frame states.
pub open spec fn frame_len(framed: Seq<u8>) -> int {
    framed[1] * 0x100_0000 + framed[2] * 0x1_0000 + framed[3] * 0x100 + framed[4]
}

/// The message in a frame, or the status that refuses it: a frame that is cut
/// short is an invalid argument, a compressed one is not implemented. Bytes
/// behind the message are ignored.
pub open spec fn unframed(framed: Seq<u8>) -> Result<Seq<u8>, u8> {
    if framed.len() < FRAME_HEADER {
        Err(STATUS_INVALID_ARGUMENT)
    } else if framed[0] != 0 {
        Err(STATUS_UNIMPLEMENTED)
    } else if framed.len() < FRAME_HEADER + frame_len(framed) {
        Err(STATUS_INVALID_ARGUMENT)
    } else {
        Ok(framed.subrange(FRAME_HEADER as int, FRAME_HEADER + frame_len(framed)))
    }
}

/// The message in a frame, as a slice of the body, or the status that refuses
/// it.
pub fn unframe(framed: &Bytes) -> (r: Result<Bytes, u8>)
    ensures
        match unframed(buffer::content(*framed)) {
            Ok(message) => r matches Ok(b) && buffer::content(b) == message,
            Err(code) => r == Err::<Bytes, u8>(code),
        },
{
    let b = buffer::as_slice(framed);
    let have: usize = b.len();
    if have < FRAME_HEADER {
        return Err(STATUS_INVALID_ARGUMENT);
    }
    if b[0] != 0 {
        return Err(STATUS_UNIMPLEMENTED);
    }
    let len: u64 = b[1] as u64 * 0x100_0000 + b[2] as u64 * 0x1_0000 + b[3] as u64 * 0x100
        + b[4] as u64;
    if len > (have - FRAME_HEADER) as u64 {
        return Err(STATUS_INVALID_ARGUMENT);
    }
    Ok(buffer::slice(framed, FRAME_HEADER, FRAME_HEADER + len as usize))
}

/// A message in a frame, uncompressed.
pub open spec fn framed(message: Seq<u8>) -> Seq<u8> {
    let n = message.len();
    seq![
        0u8,
        (n / 0x100_0000 % 256) as u8,
        (n / 0x1_0000 % 256) as u8,
        (n / 0x100 % 256) as u8,
        (n % 256) as u8,
    ] + message
}

/// A framed message is found again, whatever follows it.
pub proof fn law_frames_round_trip(message: Seq<u8>, more: Seq<u8>)
    requires
        message.len() <= u32::MAX,
    ensures
        unframed(framed(message) + more) == Ok::<Seq<u8>, u8>(message),
{
    let n = message.len();
    let f = framed(message) + more;
    assert(frame_len(f) == n) by {
        assert(n == (n / 0x100_0000 % 256) * 0x100_0000 + (n / 0x1_0000 % 256) * 0x1_0000 + (n
            / 0x100 % 256) * 0x100 + n % 256);
    }
    assert(f.subrange(5, 5 + n as int) =~= message);
}

/// The status that refuses a request before its body is read, if any: another
/// method or path is not implemented, another content type is invalid.
pub fn refusal(is_post: bool, path: &str, content_type: Option<&str>) -> (r: Option<u8>)
    ensures
        r == (if !is_post || path@ != LOGS_EXPORT_PATH@ {
            Some(STATUS_UNIMPLEMENTED)
        } else if content_type matches Some(t) && GRPC_CONTENT_TYPE@.is_prefix_of(t@) {
            None
        } else {
            Some(STATUS_INVALID_ARGUMENT)
        }),
{
    if !is_post || !text::str_eq(path, LOGS_EXPORT_PATH) {
        return Some(STATUS_UNIMPLEMENTED);
    }
    match content_type {
        Some(t) => match text::strip_prefix(t, GRPC_CONTENT_TYPE) {
            Some(rest) => {
                proof {
                    assert(t@.take(GRPC_CONTENT_TYPE@.len() as int) =~= GRPC_CONTENT_TYPE@);
                }
                None
            },
            None => Some(STATUS_INVALID_ARGUMENT),
        },
        None => Some(STATUS_INVALID_ARGUMENT),
    }
}

/// Most bytes of a body: the size cap and the frame header.
pub fn read_limit(max_body_bytes: usize) -> (r: usize)
    ensures
        r == (if max_body_bytes + FRAME_HEADER > usize::MAX {
            usize::MAX as int
        } else {
            max_body_bytes + FRAME_HEADER
        }),
{
    max_body_bytes.saturating_add(FRAME_HEADER)
}

/// The status for a verdict.
pub open spec fn status_of(v: Verdict) -> u8 {
    match v {
        Verdict::Accepted => STATUS_OK,
        Verdict::Malformed => STATUS_INVALID_ARGUMENT,
        Verdict::ForwardFailed => STATUS_UNAVAILABLE,
    }
}

/// The status for a verdict, and whether an (empty) message goes with it.
pub fn reply(v: Verdict) -> (r: (u8, bool))
    ensures
        r.0 == status_of(v),
        r.1 == (v == Verdict::Accepted),
{
    match v {
        Verdict::Accepted => (STATUS_OK, true),
        Verdict::Malformed => (STATUS_INVALID_ARGUMENT, false),
        Verdict::ForwardFailed => (STATUS_UNAVAILABLE, false),
    }
}

/// The trailer value of a status; one that is never sent reads as unknown.
pub fn status_value(code: u8) -> (s: &'static str)
    ensures
        s@ == (if code == 0 {
            "0"@
        } else if code == 3 {
            "3"@
        } else if code == 8 {
            "8"@
        } else if code == 12 {
            "12"@
        } else if code == 14 {
            "14"@
        } else {
            "2"@
        }),
{
    match code {
        0 => "0",
        3 => "3",
        8 => "8",
        12 => "12",
        14 => "14",
        _ => "2",
    }
}

/// A frame is refused with 3 where it is cut short, anywhere in its header or
/// its message, and with 12 where it is compressed.
pub proof fn law_bad_frames_are_refused(f: Seq<u8>, message: Seq<u8>, cut: int)
    requires
        message.len() <= u32::MAX,
        0 <= cut < message.len() + 5,
    ensures
        unframed(framed(message).take(cut)) == Err::<Seq<u8>, u8>(3),
        f.len() >= 5 && f[0] != 0 ==> unframed(f) == Err::<Seq<u8>, u8>(12),
{
    let whole = framed(message);
    let n = message.len();
    assert(frame_len(whole) == n) by {
        assert(n == (n / 0x100_0000 % 256) * 0x100_0000 + (n / 0x1_0000 % 256) * 0x1_0000 + (n
            / 0x100 % 256) * 0x100 + n % 256);
    }
    let part = whole.take(cut);
    if cut >= 5 {
        assert(part[0] == whole[0] && part[1] == whole[1] && part[2] == whole[2] && part[3]
            == whole[3] && part[4] == whole[4]);
    }
}

/// A frame is five bytes in front of its message: a zero, and the length of
/// the message, high byte first.
pub proof fn law_frames_state_their_length(message: Seq<u8>)
    requires
        message.len() <= u32::MAX,
    ensures
        framed(message).len() == message.len() + 5,
        framed(message)[0] == 0,
        framed(message)[1] * 16777216 + framed(message)[2] * 65536 + framed(message)[3] * 256
            + framed(message)[4] == message.len(),
        framed(message).skip(5) == message,
{
    let n = message.len();
    assert(n == (n / 0x100_0000 % 256) * 0x100_0000 + (n / 0x1_0000 % 256) * 0x1_0000 + (n / 0x100
        % 256) * 0x100 + n % 256);
    assert(framed(message).skip(5) =~= message);
}

/// The codes that callers know: 0 for accepted, 3 for a payload that must not
/// be sent again, 14 for one that should. Another method is answered 12, a
/// body over the cap 8.
pub proof fn law_codes_tell_callers_what_to_do(v: Verdict)
    ensures
        status_of(v) == 0 <==> v == Verdict::Accepted,
        status_of(v) == 3 <==> v == Verdict::Malformed,
        status_of(v) == 14 <==> v == Verdict::ForwardFailed,
        STATUS_UNIMPLEMENTED == 12,
        STATUS_INVALID_ARGUMENT == 3,
        STATUS_RESOURCE_EXHAUSTED == 8,
        FRAME_HEADER == 5,
        LOGS_EXPORT_PATH@ == "/opentelemetry.proto.collector.logs.v1.LogsService/Export"@,
        GRPC_CONTENT_TYPE@ == "application/grpc"@,
{
}

} // verus!
