//! The audio payload header: `ASTG`, a version byte, and the payload length
//! as four big-endian bytes, followed by the payload.
use vstd::prelude::*;

use crate::bitstream::{bit_of, bits_of_bytes, bits_value, byte_count, lemma_pow2_mono, lemma_pow2_step, lemma_pow2_values, pow2_nat};
use crate::payload::binary::{u32_be_bytes, be_u32_at, put_u32_be, lemma_u32_round_trip};
use super::error::StegoError;

verus! {

pub const VERSION: u8 = 1;
pub const HEADER_LEN: usize = 9;

/// The magic bytes `A`, `S`, `T`, `G`.
pub open spec fn audio_magic() -> Seq<u8> {
    seq![65u8, 83u8, 84u8, 71u8]
}

/// The header and payload as stored.
pub open spec fn packed_spec(payload: Seq<u8>) -> Seq<u8> {
    audio_magic() + seq![VERSION] + u32_be_bytes(payload.len() as u32) + payload
}

/// Whether `packed` starts with the magic and version.
pub open spec fn header_ok(packed: Seq<u8>) -> bool {
    packed.len() >= 9 && packed.subrange(0, 4) == audio_magic() && packed[4] == VERSION
}

/// What `unpack` gives.
pub open spec fn unpack_spec(packed: Seq<u8>) -> Result<Seq<u8>, StegoError> {
    if !header_ok(packed) || packed.len() < 9 + be_u32_at(packed, 5) {
        Err(StegoError::NoHeaderFound)
    } else {
        Ok(packed.subrange(9, 9 + be_u32_at(packed, 5)))
    }
}

/// What `payload_len_from_header` gives.
pub open spec fn len_from_header_spec(header: Seq<u8>) -> Result<usize, StegoError> {
    if header.len() != 9 || !header_ok(header) {
        Err(StegoError::NoHeaderFound)
    } else {
        Ok(be_u32_at(header, 5) as usize)
    }
}

/// Bytes from bits, eight at a time, each group read most significant bit
/// first; a final short group gives the value of its bits alone.
pub open spec fn audio_bytes_of_bits(bits: Seq<bool>) -> Seq<u8> {
    Seq::new(
        byte_count(bits.len()),
        |i: int|
            bits_value(
                bits.subrange(8 * i, if 8 * i + 8 <= bits.len() { 8 * i + 8 } else { bits.len() as int }),
            ) as u8,
    )
}

fn has_audio_magic(bytes: &[u8]) -> (b: bool)
    requires
        bytes@.len() >= 9,
    ensures
        b == (bytes@.subrange(0, 4) == audio_magic() && bytes@[4] == VERSION),
{
    let b = bytes[0] == 65 && bytes[1] == 83 && bytes[2] == 84 && bytes[3] == 71 && bytes[4] == VERSION;
    proof {
        if b {
            assert(bytes@.subrange(0, 4) =~= audio_magic());
        } else if bytes@.subrange(0, 4) == audio_magic() {
            assert(bytes@.subrange(0, 4)[0] == 65);
            assert(bytes@.subrange(0, 4)[1] == 83);
            assert(bytes@.subrange(0, 4)[2] == 84);
            assert(bytes@.subrange(0, 4)[3] == 71);
        }
    }
    b
}

/// Puts the header in front of the payload; a payload whose length does
/// not fit in 32 bits is refused.
pub fn pack(payload: &[u8]) -> (r: Result<Vec<u8>, StegoError>)
    ensures
        match r {
            Ok(v) => payload@.len() <= u32::MAX && v@ == packed_spec(payload@),
            Err(e) => payload@.len() > u32::MAX && e == StegoError::PayloadTooLarge {
                needed: payload@.len() as usize,
                available: u32::MAX as usize,
            },
        },
{
    if payload.len() > 0xffff_ffff {
        return Err(StegoError::PayloadTooLarge { needed: payload.len(), available: 0xffff_ffff });
    }
    let mut packed: Vec<u8> = Vec::new();
    packed.push(65);
    packed.push(83);
    packed.push(84);
    packed.push(71);
    packed.push(VERSION);
    put_u32_be(&mut packed, payload.len() as u32);
    packed.extend_from_slice(payload);
    assert(packed@ =~= packed_spec(payload@));
    Ok(packed)
}

/// The payload behind a valid header; fails when the magic or version is
/// wrong or the payload is cut short.
pub fn unpack(packed: &[u8]) -> (r: Result<&[u8], StegoError>)
    ensures
        match r {
            Ok(p) => unpack_spec(packed@) == Ok::<Seq<u8>, StegoError>(p@),
            Err(e) => unpack_spec(packed@) == Err::<Seq<u8>, StegoError>(e),
        },
{
    if packed.len() < HEADER_LEN || !has_audio_magic(packed) {
        return Err(StegoError::NoHeaderFound);
    }
    let payload_len = ((packed[5] as u32) * 0x1000000 + (packed[6] as u32) * 0x10000 + (packed[7] as u32) * 256
        + (packed[8] as u32)) as usize;
    if payload_len > packed.len() - HEADER_LEN {
        return Err(StegoError::NoHeaderFound);
    }
    Ok(&packed[HEADER_LEN..HEADER_LEN + payload_len])
}

/// Bits in the header.
pub fn header_len_bits() -> (n: usize)
    ensures
        n == 72,
{
    HEADER_LEN * 8
}

/// Bytes in the header.
pub fn header_len_bytes() -> (n: usize)
    ensures
        n == 9,
{
    HEADER_LEN
}

/// The payload length a header announces; fails unless it is exactly a
/// header with the right magic and version.
pub fn payload_len_from_header(header: &[u8]) -> (r: Result<usize, StegoError>)
    ensures
        match r {
            Ok(n) => len_from_header_spec(header@) == Ok::<usize, StegoError>(n),
            Err(e) => len_from_header_spec(header@) == Err::<usize, StegoError>(e),
        },
{
    if header.len() != HEADER_LEN || !has_audio_magic(header) {
        return Err(StegoError::NoHeaderFound);
    }
    let n = (header[5] as u32) * 0x1000000 + (header[6] as u32) * 0x10000 + (header[7] as u32) * 256
        + (header[8] as u32);
    Ok(n as usize)
}

/// The bits of the bytes, most significant first.
pub fn bytes_to_bits(bytes: &[u8]) -> (bits: Vec<bool>)
    requires
        8 * bytes@.len() <= usize::MAX,
    ensures
        bits@ == bits_of_bytes(bytes@),
{
    crate::bitstream::bytes_to_bits(bytes)
}

proof fn lemma_fold_step(acc: u8, bit: bool)
    requires
        acc < 128,
    ensures
        ((acc << 1u8) | (if bit { 1u8 } else { 0u8 })) == 2 * acc + (if bit { 1u8 } else { 0u8 }),
{
    let b: u8 = if bit { 1u8 } else { 0u8 };
    assert(((acc << 1u8) | b) == 2 * acc + b) by (bit_vector)
        requires
            acc < 128,
            b <= 1,
    ;
}

/// Bytes from bits, eight at a time, shifting each bit in from the right.
pub fn bits_to_bytes(bits: &[bool]) -> (bytes: Vec<u8>)
    ensures
        bytes@ == audio_bytes_of_bits(bits@),
{
    let mut bytes: Vec<u8> = Vec::new();
    let n = bits.len();
    let mut start: usize = 0;
    while start < n
        invariant
            n == bits@.len(),
            start <= n,
            start % 8 == 0 || start == n,
            bytes@.len() == byte_count(start as nat),
            forall|i: int| 0 <= i < bytes@.len() ==> #[trigger] bytes@[i] == audio_bytes_of_bits(bits@)[i],
        decreases n - start,
    {
        let end: usize = if n - start >= 8 { start + 8 } else { n };
        let mut byte: u8 = 0;
        let mut i: usize = 0;
        while start + i < end
            invariant
                start < end <= n,
                end - start <= 8,
                n == bits@.len(),
                start + i <= end,
                byte as nat == bits_value(bits@.subrange(start as int, (start + i) as int)),
                bits_value(bits@.subrange(start as int, (start + i) as int)) < pow2_nat(i as nat),
            decreases end - start - i,
        {
            proof {
                let chunk = bits@.subrange(start as int, (start + i + 1) as int);
                assert(chunk.drop_last() =~= bits@.subrange(start as int, (start + i) as int));
                lemma_pow2_step((i + 1) as nat);
                lemma_pow2_mono(i as nat, 7);
                lemma_pow2_values();
                lemma_fold_step(byte, bits@[(start + i) as int]);
            }
            byte = (byte << 1) | (if bits[start + i] { 1u8 } else { 0u8 });
            i = i + 1;
        }
        proof {
            let k = start as int / 8;
            assert(8 * k == start) by (nonlinear_arith)
                requires start % 8 == 0 || start == n, start < n, k == start / 8;
            assert((start + 7) / 8 == k) by (nonlinear_arith)
                requires 8 * k == start, k >= 0;
            assert((end + 7) / 8 == k + 1) by (nonlinear_arith)
                requires end > start, end <= start + 8, start == 8 * k, k >= 0;
            assert(audio_bytes_of_bits(bits@)[k] == byte);
        }
        bytes.push(byte);
        start = end;
    }
    proof {
        assert(bytes@ =~= audio_bytes_of_bits(bits@));
    }
    bytes
}

proof fn lemma_byte_bits_value_prefix(b: u8, s: Seq<bool>, k: int)
    requires
        0 <= k <= 8,
        s.len() == 8,
        forall|j: int| 0 <= j < 8 ==> s[j] == bit_of(b, j),
    ensures
        bits_value(s.take(k)) == (b >> ((8 - k) as u8)) as nat,
    decreases k,
{
    if k == 0 {
        assert(s.take(0) =~= Seq::<bool>::empty());
        assert(b >> 8u8 == 0) by (bit_vector);
    } else {
        lemma_byte_bits_value_prefix(b, s, k - 1);
        assert(s.take(k).drop_last() =~= s.take(k - 1));
        let sh: u8 = (8 - k) as u8;
        assert((b >> sh) == 2 * (b >> ((sh + 1) as u8)) + ((b >> sh) & 1u8) && ((b >> sh) & 1u8 == 1u8 || (b
            >> sh) & 1u8 == 0u8)) by (bit_vector)
            requires
                sh < 8,
        ;
        assert(s[k - 1] == bit_of(b, k - 1));
    }
}

/// Reading bits back into bytes gives back the bytes they came from.
pub proof fn lemma_audio_bits_round_trip(bytes: Seq<u8>)
    ensures
        audio_bytes_of_bits(bits_of_bytes(bytes)) == bytes,
{
    let bits = bits_of_bytes(bytes);
    let n = bytes.len();
    assert(byte_count(8 * n) == n) by (nonlinear_arith)
        requires n >= 0;
    assert forall|i: int| 0 <= i < n implies #[trigger] audio_bytes_of_bits(bits)[i] == bytes[i] by {
        let chunk = bits.subrange(8 * i, 8 * i + 8);
        assert(8 * i + 8 <= bits.len()) by (nonlinear_arith)
            requires 0 <= i < n, bits.len() == 8 * n;
        assert forall|j: int| 0 <= j < 8 implies chunk[j] == bit_of(bytes[i], j) by {
            assert((8 * i + j) / 8 == i && (8 * i + j) % 8 == j) by (nonlinear_arith)
                requires 0 <= i, 0 <= j < 8;
        }
        lemma_byte_bits_value_prefix(bytes[i], chunk, 8);
        assert(chunk.take(8) =~= chunk);
        let bi = bytes[i];
        assert(bi >> 0u8 == bi) by (bit_vector);
    }
    assert(audio_bytes_of_bits(bits) =~= bytes);
}

/// A packed payload unpacks to the payload.
pub proof fn lemma_pack_unpack(payload: Seq<u8>)
    requires
        payload.len() <= u32::MAX,
    ensures
        header_ok(packed_spec(payload)),
        len_from_header_spec(packed_spec(payload).take(9)) == Ok::<usize, StegoError>(payload.len() as usize),
        unpack_spec(packed_spec(payload)) == Ok::<Seq<u8>, StegoError>(payload),
{
    let p = packed_spec(payload);
    assert(p.subrange(0, 4) =~= audio_magic());
    assert(p.subrange(5, 9) =~= u32_be_bytes(payload.len() as u32));
    lemma_u32_round_trip(payload.len() as u32, p, 5);
    let h = p.take(9);
    assert(h.subrange(0, 4) =~= audio_magic());
    assert(h.subrange(5, 9) =~= u32_be_bytes(payload.len() as u32));
    lemma_u32_round_trip(payload.len() as u32, h, 5);
    assert(p.subrange(9, 9 + payload.len() as int) =~= payload);
}

} // verus!
