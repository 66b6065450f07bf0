//! Writing the packed payload into the samples' lowest bits.
use vstd::prelude::*;
use vstd::string::StringExecFns;

use crate::bitstream::bits_of_bytes;
use crate::text::{decimal, push_decimal};
use super::error::StegoError;
use super::header::{self, packed_spec};

verus! {

/// The sample encodings a WAV file may use.
#[derive(Debug, Clone, Copy, PartialEq, Eq)]
pub enum SampleFormat {
    Float,
    Int,
}

/// The format of a WAV file's samples.
#[derive(Debug, Clone, Copy, PartialEq, Eq)]
pub struct PcmSpec {
    pub channels: u16,
    pub sample_rate: u32,
    pub bits_per_sample: u16,
    pub sample_format: SampleFormat,
}

/// `s` with its lowest bit set to `bit`.
pub open spec fn set_lsb(s: i16, bit: bool) -> i16 {
    (s & !1i16) | (if bit { 1i16 } else { 0i16 })
}

/// Whether the lowest bit of `s` is set.
pub open spec fn lsb(s: i16) -> bool {
    s & 1i16 == 1i16
}

/// Payload bytes that `sample_count` samples carry behind the header.
pub open spec fn max_capacity_spec(sample_count: nat) -> nat {
    if sample_count / 8 >= 9 {
        (sample_count / 8 - 9) as nat
    } else {
        0
    }
}

/// The samples after embedding `payload`: the lowest bit of each of the
/// first samples replaced by the bits of the header and payload, the rest
/// untouched.
pub open spec fn embedded_spec(samples: Seq<i16>, payload: Seq<u8>) -> Seq<i16> {
    let bits = bits_of_bytes(packed_spec(payload));
    Seq::new(samples.len(), |i: int| if i < bits.len() { set_lsb(samples[i], bits[i]) } else { samples[i] })
}

/// Setting the lowest bit and reading it back gives the bit.
pub proof fn lemma_lsb_of_set(s: i16, bit: bool)
    ensures
        lsb(set_lsb(s, bit)) == bit,
{
    let b: i16 = if bit { 1i16 } else { 0i16 };
    assert((((s & !1i16) | b) & 1i16 == 1i16) == (b == 1i16)) by (bit_vector)
        requires
            b == 0i16 || b == 1i16,
    ;
}

/// Payload bytes that `sample_count` samples carry behind the header.
pub fn max_capacity(sample_count: usize) -> (n: usize)
    ensures
        n == max_capacity_spec(sample_count as nat),
{
    let byte_capacity = sample_count / 8;
    byte_capacity.saturating_sub(header::header_len_bytes())
}

/// Hides `payload` in the lowest bits of the samples, header first. Fails,
/// leaving the samples alone, when the samples are too few.
pub fn embed(samples: &mut [i16], payload: &[u8]) -> (r: Result<(), StegoError>)
    requires
        (9 + payload@.len()) * 8 <= usize::MAX,
    ensures
        match r {
            Ok(()) => payload@.len() <= max_capacity_spec(old(samples)@.len()) && final(samples)@ == embedded_spec(
                old(samples)@,
                payload@,
            ),
            Err(e) => final(samples)@ == old(samples)@ && if payload@.len() > max_capacity_spec(old(samples)@.len()) {
                e == StegoError::PayloadTooLarge {
                    needed: ((9 + payload@.len()) * 8) as usize,
                    available: old(samples)@.len() as usize,
                }
            } else {
                payload@.len() > u32::MAX && e == StegoError::PayloadTooLarge {
                    needed: payload@.len() as usize,
                    available: u32::MAX as usize,
                }
            },
        },
{
    if payload.len() > max_capacity(samples.len()) {
        let needed = (header::header_len_bytes() + payload.len()) * 8;
        return Err(StegoError::PayloadTooLarge { needed, available: samples.len() });
    }
    let packed = match header::pack(payload) {
        Ok(p) => p,
        Err(e) => return Err(e),
    };
    let bits = header::bytes_to_bits(packed.as_slice());
    let ghost orig = old(samples)@;
    let count = if bits.len() < samples.len() { bits.len() } else { samples.len() };
    let mut i: usize = 0;
    while i < count
        invariant
            bits@ == bits_of_bytes(packed_spec(payload@)),
            count <= bits@.len(),
            count <= orig.len(),
            count == bits@.len() || count == orig.len(),
            samples@.len() == orig.len(),
            i <= count,
            forall|k: int| 0 <= k < i ==> samples@[k] == set_lsb(orig[k], bits@[k]),
            forall|k: int| i <= k < orig.len() ==> samples@[k] == orig[k],
        decreases count - i,
    {
        let bit: i16 = if bits[i] { 1 } else { 0 };
        samples[i] = (samples[i] & !1) | bit;
        i = i + 1;
    }
    assert(samples@ =~= embedded_spec(orig, payload@));
    Ok(())
}

/// The message for samples in a format other than 16-bit integer PCM.
pub open spec fn format_msg(spec: PcmSpec) -> Seq<char> {
    "expected 16-bit PCM, got "@ + (match spec.sample_format {
        SampleFormat::Float => "Float"@,
        SampleFormat::Int => "Int"@,
    }) + " with "@ + decimal(spec.bits_per_sample as nat) + " bits per sample"@
}

/// Accepts 16-bit integer PCM only.
pub fn validate_spec(spec: PcmSpec) -> (r: Result<(), StegoError>)
    ensures
        match r {
            Ok(()) => spec.sample_format == SampleFormat::Int && spec.bits_per_sample == 16,
            Err(e) => !(spec.sample_format == SampleFormat::Int && spec.bits_per_sample == 16) && (e matches StegoError::UnsupportedFormat(m) && m@ == format_msg(spec)),
        },
{
    let is_int = match spec.sample_format {
        SampleFormat::Int => true,
        SampleFormat::Float => false,
    };
    if !is_int || spec.bits_per_sample != 16 {
        let mut msg = String::from_str("expected 16-bit PCM, got ");
        if is_int {
            msg.append("Int");
        } else {
            msg.append("Float");
        }
        msg.append(" with ");
        push_decimal(&mut msg, spec.bits_per_sample as u64);
        msg.append(" bits per sample");
        return Err(StegoError::UnsupportedFormat(msg));
    }
    Ok(())
}

} // verus!
