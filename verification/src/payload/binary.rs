//! Big-endian integer fields inside payload byte streams.
use vstd::prelude::*;
use vstd::string::StringExecFns;
use crate::text::msg_view;

verus! {

/// The two big-endian bytes of `v`.
pub open spec fn u16_be_bytes(v: u16) -> Seq<u8> {
    seq![(v / 256) as u8, (v % 256) as u8]
}

/// The four big-endian bytes of `v`.
pub open spec fn u32_be_bytes(v: u32) -> Seq<u8> {
    seq![(v / 0x1000000) as u8, (v / 0x10000 % 256) as u8, (v / 256 % 256) as u8, (v % 256) as u8]
}

/// The big-endian 16-bit number stored at `s[o..o + 2]`.
pub open spec fn be_u16_at(s: Seq<u8>, o: int) -> u16 {
    (s[o] * 256 + s[o + 1]) as u16
}

/// The big-endian 32-bit number stored at `s[o..o + 4]`.
pub open spec fn be_u32_at(s: Seq<u8>, o: int) -> u32 {
    (s[o] * 0x1000000 + s[o + 1] * 0x10000 + s[o + 2] * 256 + s[o + 3]) as u32
}

/// Reading back the bytes written for a 16-bit number gives the number.
pub proof fn lemma_u16_round_trip(v: u16, s: Seq<u8>, o: int)
    requires
        0 <= o,
        o + 2 <= s.len(),
        s.subrange(o, o + 2) == u16_be_bytes(v),
    ensures
        be_u16_at(s, o) == v,
{
    assert(s[o] == u16_be_bytes(v)[0]);
    assert(s[o + 1] == u16_be_bytes(v)[1]);
    assert((v / 256) * 256 + v % 256 == v) by (nonlinear_arith);
}

/// Reading back the bytes written for a 32-bit number gives the number.
pub proof fn lemma_u32_round_trip(v: u32, s: Seq<u8>, o: int)
    requires
        0 <= o,
        o + 4 <= s.len(),
        s.subrange(o, o + 4) == u32_be_bytes(v),
    ensures
        be_u32_at(s, o) == v,
{
    assert(s[o] == u32_be_bytes(v)[0]);
    assert(s[o + 1] == u32_be_bytes(v)[1]);
    assert(s[o + 2] == u32_be_bytes(v)[2]);
    assert(s[o + 3] == u32_be_bytes(v)[3]);
    assert((v / 0x1000000) * 0x1000000 + (v / 0x10000 % 256) * 0x10000 + (v / 256 % 256) * 256 + v
        % 256 == v) by (nonlinear_arith);
}

/// Appends `v` as two big-endian bytes.
pub fn put_u16_be(out: &mut Vec<u8>, v: u16)
    ensures
        final(out)@ == old(out)@ + u16_be_bytes(v),
{
    out.push((v / 256) as u8);
    out.push((v % 256) as u8);
    assert(out@ =~= old(out)@ + u16_be_bytes(v));
}

/// Appends `v` as four big-endian bytes.
pub fn put_u32_be(out: &mut Vec<u8>, v: u32)
    ensures
        final(out)@ == old(out)@ + u32_be_bytes(v),
{
    out.push((v / 0x1000000) as u8);
    out.push((v / 0x10000 % 256) as u8);
    out.push((v / 256 % 256) as u8);
    out.push((v % 256) as u8);
    assert(out@ =~= old(out)@ + u32_be_bytes(v));
}

/// Reads a big-endian 16-bit number at `*offset` and moves the offset past
/// it; fails, leaving the offset alone, when fewer than two bytes remain.
pub fn read_u16_be(input: &[u8], offset: &mut usize) -> (r: Result<u16, String>)
    ensures
        msg_view(r) == (if input@.len() < *old(offset) + 2 {
            Err("Invalid payload: truncated u16"@)
        } else {
            Ok(be_u16_at(input@, *old(offset) as int))
        }),
        *final(offset) == (if r is Ok { *old(offset) + 2 } else { *old(offset) as int }),
{
    if input.len() < 2 || *offset > input.len() - 2 {
        return Err(String::from_str("Invalid payload: truncated u16"));
    }
    let o = *offset;
    let v: u16 = (input[o] as u16) * 256 + (input[o + 1] as u16);
    *offset = o + 2;
    Ok(v)
}

/// Reads a big-endian 32-bit number at `*offset` and moves the offset past
/// it; fails, leaving the offset alone, when fewer than four bytes remain.
pub fn read_u32_be(input: &[u8], offset: &mut usize) -> (r: Result<u32, String>)
    ensures
        msg_view(r) == (if input@.len() < *old(offset) + 4 {
            Err("Invalid payload: truncated u32"@)
        } else {
            Ok(be_u32_at(input@, *old(offset) as int))
        }),
        *final(offset) == (if r is Ok { *old(offset) + 4 } else { *old(offset) as int }),
{
    if input.len() < 4 || *offset > input.len() - 4 {
        return Err(String::from_str("Invalid payload: truncated u32"));
    }
    let o = *offset;
    let v: u32 = (input[o] as u32) * 0x1000000 + (input[o + 1] as u32) * 0x10000 + (input[o + 2] as u32) * 256
        + (input[o + 3] as u32);
    *offset = o + 4;
    Ok(v)
}

} // verus!
