//! The length-prefixed wire framing: outbound terminator, inbound length
//! header, and the cursor of positioned responses.
use vstd::prelude::*;
use vstd::string::StringExecFns;
use crate::error::BoneError;
use crate::telemetry::be32_at;
use crate::text::all_hex_digits;
use crate::text::hex_val;
use crate::text::parse_hex_u32;

verus! {

/// An outbound frame: the serialized body followed by the CR LF terminator.
pub fn encode_frame(body: Vec<u8>) -> (r: Vec<u8>)
    ensures
        r@ == body@ + seq![13u8, 10u8],
{
    let mut out = body;
    out.push(13);
    out.push(10);
    proof {
        assert(out@ =~= body@ + seq![13u8, 10u8]);
    }
    out
}

/// Reads the 8-byte ASCII-hexadecimal length header of a response.
/// Fails exactly when some byte is no hexadecimal digit; the connection is
/// then desynchronized and must not be reused.
pub fn parse_length_header(hdr: &[u8]) -> (r: Result<u32, BoneError>)
    requires
        hdr@.len() == 8,
    ensures
        r is Ok <==> all_hex_digits(hdr@),
        r matches Ok(n) ==> n as int == hex_val(hdr@),
        r matches Err(e) ==> e matches BoneError::Framing(_),
{
    match parse_hex_u32(hdr) {
        Some(n) => Ok(n),
        None => Err(BoneError::Framing(String::from_str(
            "length header is no hexadecimal numeral",
        ))),
    }
}

/// The value of a big-endian two's-complement 32-bit integer.
pub open spec fn be_i32_val(b: Seq<u8>) -> int {
    if be32_at(b, 0) < 0x80000000 {
        be32_at(b, 0)
    } else {
        be32_at(b, 0) - 0x100000000
    }
}

/// Reads the 4-byte big-endian signed cursor that precedes positioned
/// response bodies.
pub fn parse_cursor(b: &[u8]) -> (r: i32)
    requires
        b@.len() == 4,
    ensures
        r as int == be_i32_val(b@),
{
    let w: u32 = (b[0] as u32) * 0x1000000 + (b[1] as u32) * 0x10000 + (b[2] as u32) * 0x100
        + (b[3] as u32);
    let r = w as i32;
    proof {
        assert((w as i32) as int == if w < 0x80000000 {
            w as int
        } else {
            w as int - 0x100000000
        }) by (bit_vector);
    }
    r
}

} // verus!
