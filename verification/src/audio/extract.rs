//! Reading the packed payload back from the samples' lowest bits.
use vstd::prelude::*;
use vstd::utf8::{valid_utf8, decode_utf8};
use vstd::slice::slice_to_vec;

use crate::bitstream::bits_of_bytes;
use crate::text::string_from_utf8;
use super::embed::{embedded_spec, lemma_lsb_of_set, lsb};
use super::error::StegoError;
use super::header::{self, audio_bytes_of_bits, len_from_header_spec, lemma_audio_bits_round_trip, lemma_pack_unpack, packed_spec, unpack_spec};

verus! {

/// The lowest bits of the first `len` samples.
pub open spec fn lsbs(samples: Seq<i16>, len: int) -> Seq<bool> {
    Seq::new(len as nat, |i: int| lsb(samples[i]))
}

/// What `read_bits` gives.
pub open spec fn read_bits_spec(samples: Seq<i16>, len: usize) -> Result<Seq<bool>, StegoError> {
    if len > samples.len() {
        Err(StegoError::PayloadTooLarge { needed: len, available: samples.len() as usize })
    } else {
        Ok(lsbs(samples, len as int))
    }
}

/// What `extract_payload` gives.
pub open spec fn extract_spec(samples: Seq<i16>) -> Result<Seq<u8>, StegoError> {
    match read_bits_spec(samples, 72) {
        Err(e) => Err(e),
        Ok(header_bits) => match len_from_header_spec(audio_bytes_of_bits(header_bits)) {
            Err(e) => Err(e),
            Ok(payload_len) => {
                let total = 72 + 8 * payload_len;
                if total > usize::MAX {
                    Err(StegoError::PayloadTooLarge { needed: usize::MAX, available: samples.len() as usize })
                } else {
                    match read_bits_spec(samples, total as usize) {
                        Err(e) => Err(e),
                        Ok(bits) => unpack_spec(audio_bytes_of_bits(bits)),
                    }
                }
            },
        },
    }
}

/// The lowest bits of the first `len` samples; fails when there are fewer
/// samples.
pub fn read_bits(samples: &[i16], len: usize) -> (r: Result<Vec<bool>, StegoError>)
    ensures
        match r {
            Ok(bits) => read_bits_spec(samples@, len) == Ok::<Seq<bool>, StegoError>(bits@),
            Err(e) => read_bits_spec(samples@, len) == Err::<Seq<bool>, StegoError>(e),
        },
{
    if len > samples.len() {
        return Err(StegoError::PayloadTooLarge { needed: len, available: samples.len() });
    }
    let mut bits: Vec<bool> = Vec::new();
    let mut i: usize = 0;
    while i < len
        invariant
            len <= samples@.len(),
            i <= len,
            bits@ == lsbs(samples@, i as int),
        decreases len - i,
    {
        bits.push((samples[i] & 1) == 1);
        i = i + 1;
        assert(bits@ =~= lsbs(samples@, i as int));
    }
    Ok(bits)
}

/// Recovers the payload from the samples: reads the header's bits, then as
/// many bits as header and payload take, and unpacks them. A length whose
/// bit count overflows a `usize` (possible only where `usize` has 32 bits)
/// is reported as too large for the samples.
pub fn extract_payload(samples: &[i16]) -> (r: Result<Vec<u8>, StegoError>)
    ensures
        match r {
            Ok(p) => extract_spec(samples@) == Ok::<Seq<u8>, StegoError>(p@),
            Err(e) => extract_spec(samples@) == Err::<Seq<u8>, StegoError>(e),
        },
{
    let header_bits = match read_bits(samples, header::header_len_bits()) {
        Ok(b) => b,
        Err(e) => return Err(e),
    };
    let header_bytes = header::bits_to_bytes(header_bits.as_slice());
    let payload_len = match header::payload_len_from_header(header_bytes.as_slice()) {
        Ok(n) => n,
        Err(e) => return Err(e),
    };
    let total_bits = match payload_len.checked_mul(8) {
        Some(b) => match b.checked_add(header::header_len_bits()) {
            Some(t) => t,
            None => return Err(StegoError::PayloadTooLarge { needed: usize::MAX, available: samples.len() }),
        },
        None => return Err(StegoError::PayloadTooLarge { needed: usize::MAX, available: samples.len() }),
    };
    let bits = match read_bits(samples, total_bits) {
        Ok(b) => b,
        Err(e) => return Err(e),
    };
    let packed = header::bits_to_bytes(bits.as_slice());
    match header::unpack(packed.as_slice()) {
        Ok(p) => Ok(slice_to_vec(p)),
        Err(e) => Err(e),
    }
}

/// What `message_from_bytes` gives.
pub open spec fn message_spec(bytes: Seq<u8>) -> Option<Seq<char>> {
    if valid_utf8(bytes) {
        Some(decode_utf8(bytes))
    } else {
        None
    }
}

/// Reads recovered bytes as a UTF-8 message.
pub fn message_from_bytes(bytes: Vec<u8>) -> (r: Result<String, StegoError>)
    ensures
        match r {
            Ok(s) => message_spec(bytes@) == Some(s@),
            Err(e) => e matches StegoError::InvalidUtf8(b) && b@ == bytes@ && !valid_utf8(bytes@),
        },
{
    let copy = slice_to_vec(bytes.as_slice());
    match string_from_utf8(bytes) {
        Some(s) => Ok(s),
        None => Err(StegoError::InvalidUtf8(copy)),
    }
}

/// Recovering from the samples what was embedded in them gives the payload
/// back, whenever header and payload fit in the samples and the payload's
/// length fits in 32 bits.
pub proof fn lemma_embed_extract_round_trip(samples: Seq<i16>, payload: Seq<u8>)
    requires
        9 + payload.len() <= samples.len() / 8,
        payload.len() <= u32::MAX,
        samples.len() <= usize::MAX,
    ensures
        extract_spec(embedded_spec(samples, payload)) == Ok::<Seq<u8>, StegoError>(payload),
{
    let packed = packed_spec(payload);
    let bits = bits_of_bytes(packed);
    let emb = embedded_spec(samples, payload);
    let n = samples.len();
    let q = n / 8;
    assert(8 * q <= n) by (nonlinear_arith)
        requires q == n / 8, n >= 0;
    assert(bits.len() == 8 * packed.len());
    assert(bits.len() <= n);
    assert forall|i: int| 0 <= i < bits.len() implies lsb(emb[i]) == bits[i] by {
        lemma_lsb_of_set(samples[i], bits[i]);
    }
    lemma_pack_unpack(payload);
    // the header
    let hb = lsbs(emb, 72);
    assert(hb =~= bits_of_bytes(packed.take(9)));
    lemma_audio_bits_round_trip(packed.take(9));
    // the whole packed payload
    let total: int = 72 + 8 * payload.len() as int;
    assert(lsbs(emb, total) =~= bits);
    lemma_audio_bits_round_trip(packed);
}

/// A message read back from its own bytes is the message.
pub proof fn lemma_message_round_trip(message: Seq<char>)
    ensures
        message_spec(vstd::utf8::encode_utf8(message)) == Some(message),
{
    broadcast use {vstd::utf8::encode_utf8_valid_utf8, vstd::utf8::encode_utf8_decode_utf8};
}

} // verus!
