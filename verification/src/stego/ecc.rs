//! The embedded length header: a 32-bit length, most significant bit
//! first, protected nibble by nibble with a Hamming(7,4) code.
use vstd::prelude::*;
use vstd::string::StringExecFns;

use crate::text::{decimal, msg_view, push_decimal, seq_view};
use crate::bitstream::{bits_value, lemma_div_mod, lemma_pow2_mono, lemma_pow2_step, lemma_pow2_values, pow2_nat};

verus! {

pub const LENGTH_LEN_BITS: usize = 32;
pub const HEADER_LEN_BITS: usize = 56;

/// `a` exclusive-or `b`.
pub open spec fn xor(a: bool, b: bool) -> bool {
    a != b
}

/// The Hamming(7,4) codeword of the nibble `d` (parity bits at positions
/// 0, 1 and 3; data bits at 2, 4, 5 and 6).
pub open spec fn hamming_encode(d: Seq<bool>) -> Seq<bool> {
    seq![
        xor(xor(d[0], d[1]), d[3]),
        xor(xor(d[0], d[2]), d[3]),
        d[0],
        xor(xor(d[1], d[2]), d[3]),
        d[1],
        d[2],
        d[3],
    ]
}

/// The syndrome of a codeword: the 1-based position of a single flipped
/// bit, or 0.
pub open spec fn hamming_syndrome(c: Seq<bool>) -> int {
    (if xor(xor(c[0], c[2]), xor(c[4], c[6])) { 1int } else { 0int }) + (if xor(xor(c[1], c[2]), xor(c[5], c[6])) {
        2int
    } else {
        0int
    }) + (if xor(xor(c[3], c[4]), xor(c[5], c[6])) { 4int } else { 0int })
}

/// The codeword with the bit named by its syndrome flipped back.
pub open spec fn hamming_correct(c: Seq<bool>) -> Seq<bool> {
    let s = hamming_syndrome(c);
    if s == 0 {
        c
    } else {
        c.update(s - 1, !c[s - 1])
    }
}

/// The nibble a codeword decodes to, after correction.
pub open spec fn hamming_decode(c: Seq<bool>) -> Seq<bool> {
    let k = hamming_correct(c);
    seq![k[2], k[4], k[5], k[6]]
}

/// `b` equals `a` or differs from it in exactly one position.
pub open spec fn within_one_flip(a: Seq<bool>, b: Seq<bool>) -> bool {
    b == a || exists|i: int| 0 <= i < a.len() && b == a.update(i, !a[i])
}

/// A codeword with at most one bit flipped decodes to the nibble it was
/// made from.
pub proof fn lemma_hamming_corrects_one_flip(d: Seq<bool>, received: Seq<bool>)
    requires
        d.len() == 4,
        within_one_flip(hamming_encode(d), received),
    ensures
        hamming_decode(received) == d,
{
    let c = hamming_encode(d);
    if received == c {
        assert(hamming_syndrome(c) == 0);
        assert(hamming_decode(received) =~= d);
    } else {
        let i = choose|i: int| 0 <= i < c.len() && received == c.update(i, !c[i]);
        assert(hamming_syndrome(received) == i + 1);
        assert(hamming_correct(received) =~= c);
        assert(hamming_decode(received) =~= d);
    }
}

/// The 32 bits of `v`, most significant first.
pub open spec fn length_bits(v: u32) -> Seq<bool> {
    Seq::new(32, |k: int| (v >> ((31 - k) as u32)) & 1u32 == 1u32)
}

/// Chunk `k` of `len` bits of `s`.
pub open spec fn chunk(s: Seq<bool>, k: int, len: int) -> Seq<bool> {
    s.subrange(len * k, len * k + len)
}

/// The 56-bit header for the length `v`: the Hamming codewords of its eight
/// nibbles.
pub open spec fn encoded_length(v: u32) -> Seq<bool> {
    Seq::new(56, |i: int| hamming_encode(chunk(length_bits(v), i / 7, 4))[i % 7])
}

/// The 32 bits recovered from a 56-bit header.
pub open spec fn decoded_length_bits(bits: Seq<bool>) -> Seq<bool> {
    Seq::new(32, |k: int| hamming_decode(chunk(bits, k / 4, 7))[k % 4])
}

/// The message for a header of the wrong size.
pub open spec fn header_len_msg(got: nat) -> Seq<char> {
    "Invalid header length: expected "@ + decimal(56) + ", got "@ + decimal(got)
}

/// What `decode_length` gives for `bits`.
pub open spec fn decode_length_spec(bits: Seq<bool>) -> Result<usize, Seq<char>> {
    if bits.len() != 56 {
        Err(header_len_msg(bits.len()))
    } else {
        Ok(bits_value(decoded_length_bits(bits)) as usize)
    }
}

/// Bits needed for a payload of `payload_len` bytes behind the header, or
/// `None` when that count does not fit in a `usize`.
pub fn payload_bits_required(payload_len: usize) -> (r: Option<usize>)
    ensures
        r == (if 56 + 8 * payload_len <= usize::MAX {
            Some((56 + 8 * payload_len) as usize)
        } else {
            None::<usize>
        }),
{
    match payload_len.checked_mul(8) {
        Some(payload_bits) => HEADER_LEN_BITS.checked_add(payload_bits),
        None => None,
    }
}

/// The Hamming(7,4) codeword of a nibble.
pub fn encode_hamming_7_4(nibble: &[bool]) -> (c: [bool; 7])
    requires
        nibble@.len() == 4,
    ensures
        c@ == hamming_encode(nibble@),
{
    let (d1, d2, d3, d4) = (nibble[0], nibble[1], nibble[2], nibble[3]);
    let c = [d1 ^ d2 ^ d4, d1 ^ d3 ^ d4, d1, d2 ^ d3 ^ d4, d2, d3, d4];
    assert(c@ =~= hamming_encode(nibble@));
    c
}

/// The message for a codeword of the wrong size.
pub open spec fn codeword_len_msg(got: nat) -> Seq<char> {
    "Invalid Hamming codeword length: expected 7, got "@ + decimal(got)
}

/// Corrects up to one flipped bit of a Hamming(7,4) codeword and returns
/// its four data bits.
pub fn decode_hamming_7_4(codeword: &[bool]) -> (r: Result<[bool; 4], String>)
    ensures
        (match r {
            Ok(d) => codeword@.len() == 7 && d@ == hamming_decode(codeword@),
            Err(e) => codeword@.len() != 7 && e@ == codeword_len_msg(codeword@.len()),
        }),
{
    if codeword.len() != 7 {
        let mut msg = String::from_str("Invalid Hamming codeword length: expected 7, got ");
        push_decimal(&mut msg, codeword.len() as u64);
        return Err(msg);
    }
    let mut corrected = [false; 7];
    let mut i: usize = 0;
    while i < 7
        invariant
            codeword@.len() == 7,
            i <= 7,
            corrected@.len() == 7,
            forall|k: int| 0 <= k < i ==> corrected@[k] == codeword@[k],
        decreases 7 - i,
    {
        corrected[i] = codeword[i];
        i = i + 1;
    }
    assert(corrected@ =~= codeword@);
    let s1 = corrected[0] ^ corrected[2] ^ corrected[4] ^ corrected[6];
    let s2 = corrected[1] ^ corrected[2] ^ corrected[5] ^ corrected[6];
    let s4 = corrected[3] ^ corrected[4] ^ corrected[5] ^ corrected[6];
    let syndrome: usize = (if s1 { 1 } else { 0 }) + (if s2 { 2 } else { 0 }) + (if s4 { 4 } else { 0 });
    assert(syndrome == hamming_syndrome(codeword@));
    if syndrome != 0 {
        corrected[syndrome - 1] = !corrected[syndrome - 1];
    }
    assert(corrected@ =~= hamming_correct(codeword@));
    let d = [corrected[2], corrected[4], corrected[5], corrected[6]];
    assert(d@ =~= hamming_decode(codeword@));
    Ok(d)
}

/// The bits of `val`, most significant first.
fn length_to_bits(val: u32) -> (bits: Vec<bool>)
    ensures
        bits@ == length_bits(val),
{
    let mut bits: Vec<bool> = Vec::new();
    let mut shift: u32 = 32;
    while shift > 0
        invariant
            shift <= 32,
            bits@.len() == 32 - shift,
            forall|k: int| 0 <= k < 32 - shift ==> bits@[k] == ((val >> ((31 - k) as u32)) & 1u32 == 1u32),
        decreases shift,
    {
        shift = shift - 1;
        bits.push(((val >> shift) & 1) == 1);
    }
    assert(bits@ =~= length_bits(val));
    bits
}

/// Encodes a payload length as the 56-bit header; lengths beyond 32 bits
/// are refused.
pub fn encode_length(len: usize) -> (r: Result<Vec<bool>, String>)
    ensures
        seq_view(r) == (if len > u32::MAX {
            Err("Payload too large"@)
        } else {
            Ok(encoded_length(len as u32))
        }),
{
    if len > 0xffff_ffff {
        return Err(String::from_str("Payload too large"));
    }
    let val = len as u32;
    let length_bits_vec = length_to_bits(val);
    let mut encoded: Vec<bool> = Vec::new();
    let mut k: usize = 0;
    while k < 8
        invariant
            k <= 8,
            length_bits_vec@ == length_bits(val),
            encoded@.len() == 7 * k,
            forall|i: int| 0 <= i < 7 * k ==> #[trigger] encoded@[i] == encoded_length(val)[i],
        decreases 8 - k,
    {
        let c = encode_hamming_7_4(&length_bits_vec.as_slice()[4 * k..4 * k + 4]);
        let ghost before = encoded@;
        let mut j: usize = 0;
        while j < 7
            invariant
                k < 8,
                j <= 7,
                before.len() == 7 * k,
                encoded@.len() == 7 * k + j,
                c@ == hamming_encode(chunk(length_bits(val), k as int, 4)),
                forall|i: int| 0 <= i < 7 * k ==> #[trigger] encoded@[i] == encoded_length(val)[i],
                forall|i: int| 0 <= i < j ==> #[trigger] encoded@[7 * k + i] == c@[i],
            decreases 7 - j,
        {
            encoded.push(c[j]);
            j = j + 1;
        }
        assert forall|i: int| 0 <= i < 7 * (k + 1) implies #[trigger] encoded@[i] == encoded_length(val)[i] by {
            if i >= 7 * k {
                lemma_div_mod(k as int, i - 7 * k, 7);
                assert(encoded@[7 * k + (i - 7 * k)] == c@[i - 7 * k]);
            }
        }
        k = k + 1;
    }
    assert(encoded@ =~= encoded_length(val));
    Ok(encoded)
}

proof fn lemma_shift_step(v: u32, acc: u32, bit: bool)
    requires
        acc < 0x8000_0000,
    ensures
        ((acc << 1u32) | (if bit { 1u32 } else { 0u32 })) == 2 * acc + (if bit { 1u32 } else { 0u32 }),
{
    let b: u32 = if bit { 1u32 } else { 0u32 };
    assert(((acc << 1u32) | b) == 2 * acc + b) by (bit_vector)
        requires
            acc < 0x8000_0000,
            b <= 1,
    ;
}

/// Reads a 56-bit header back as a length, correcting up to one flipped bit
/// in each of its eight codewords.
pub fn decode_length(bits: &[bool]) -> (r: Result<usize, String>)
    ensures
        msg_view(r) == decode_length_spec(bits@),
{
    if bits.len() != HEADER_LEN_BITS {
        let mut msg = String::from_str("Invalid header length: expected ");
        push_decimal(&mut msg, 56);
        msg.append(", got ");
        push_decimal(&mut msg, bits.len() as u64);
        return Err(msg);
    }
    let ghost decoded = decoded_length_bits(bits@);
    let mut v: u32 = 0;
    let mut k: usize = 0;
    while k < 8
        invariant
            bits@.len() == 56,
            k <= 8,
            decoded == decoded_length_bits(bits@),
            v as nat == bits_value(decoded.take(4 * k as int)),
            bits_value(decoded.take(4 * k as int)) < pow2_nat(4 * k as nat),
        decreases 8 - k,
    {
        let nibble = match decode_hamming_7_4(&bits[7 * k..7 * k + 7]) {
            Ok(d) => d,
            Err(e) => return Err(e),
        };
        let mut j: usize = 0;
        while j < 4
            invariant
                bits@.len() == 56,
                k < 8,
                j <= 4,
                decoded == decoded_length_bits(bits@),
                nibble@ == hamming_decode(chunk(bits@, k as int, 7)),
                v as nat == bits_value(decoded.take(4 * k + j)),
                bits_value(decoded.take(4 * k + j)) < pow2_nat((4 * k + j) as nat),
            decreases 4 - j,
        {
            proof {
                let i = 4 * k + j;
                lemma_div_mod(k as int, j as int, 4);
                assert(decoded[i as int] == nibble@[j as int]);
                assert(decoded.take(i + 1).drop_last() =~= decoded.take(i as int));
                lemma_pow2_step((i + 1) as nat);
                lemma_pow2_mono(i as nat, 31);
                lemma_pow2_values();
                lemma_shift_step(0, v, nibble[j as int]);
            }
            v = (v << 1) | (if nibble[j] { 1u32 } else { 0u32 });
            j = j + 1;
        }
        k = k + 1;
    }
    assert(decoded.take(32) =~= decoded);
    Ok(v as usize)
}

proof fn lemma_length_bits_prefix(v: u32, k: int)
    requires
        0 <= k <= 32,
    ensures
        bits_value(length_bits(v).take(k)) == (v >> ((32 - k) as u32)) as nat,
    decreases k,
{
    if k == 0 {
        assert(length_bits(v).take(0) =~= Seq::<bool>::empty());
        assert(v >> 32u32 == 0) by (bit_vector);
    } else {
        lemma_length_bits_prefix(v, k - 1);
        assert(length_bits(v).take(k).drop_last() =~= length_bits(v).take(k - 1));
        let s: u32 = (32 - k) as u32;
        assert((v >> s) == 2 * (v >> ((s + 1) as u32)) + ((v >> s) & 1u32) && ((v >> s) & 1u32 == 1u32
            || (v >> s) & 1u32 == 0u32)) by (bit_vector)
            requires
                s < 32,
        ;
        assert(length_bits(v)[k - 1] == ((v >> s) & 1u32 == 1u32));
    }
}

/// The 32 bits of a number read back give the number.
pub proof fn lemma_length_bits_value(v: u32)
    ensures
        bits_value(length_bits(v)) == v,
{
    lemma_length_bits_prefix(v, 32);
    assert(length_bits(v).take(32) =~= length_bits(v));
    assert(v >> 0u32 == v) by (bit_vector);
}

proof fn lemma_header_codeword(v: u32, k: int)
    requires
        0 <= k < 8,
    ensures
        chunk(encoded_length(v), k, 7) == hamming_encode(chunk(length_bits(v), k, 4)),
        hamming_syndrome(chunk(encoded_length(v), k, 7)) == 0,
{
    let d = chunk(length_bits(v), k, 4);
    let c = chunk(encoded_length(v), k, 7);
    assert forall|j: int| 0 <= j < 7 implies c[j] == hamming_encode(d)[j] by {
        lemma_div_mod(k, j, 7);
    }
    assert(c =~= hamming_encode(d));
    assert(hamming_syndrome(hamming_encode(d)) == 0);
}

/// The header of a length is made of exact, clean codewords: codeword `k`
/// is the Hamming(7,4) codeword of nibble `k` of the length (most
/// significant first), its syndrome is 0, and the header decodes to the
/// length.
pub proof fn lemma_encoded_length_codewords(v: u32)
    ensures
        encoded_length(v).len() == 56,
        forall|k: int|
            0 <= k < 8 ==> #[trigger] chunk(encoded_length(v), k, 7) == hamming_encode(chunk(length_bits(v), k, 4))
                && hamming_syndrome(chunk(encoded_length(v), k, 7)) == 0,
        decode_length_spec(encoded_length(v)) == Ok::<usize, Seq<char>>(v as usize),
{
    assert forall|k: int| 0 <= k < 8 implies #[trigger] chunk(encoded_length(v), k, 7) == hamming_encode(
        chunk(length_bits(v), k, 4),
    ) && hamming_syndrome(chunk(encoded_length(v), k, 7)) == 0 by {
        lemma_header_codeword(v, k);
    }
    let e = encoded_length(v);
    assert forall|k: int| 0 <= k < 8 implies within_one_flip(#[trigger] chunk(encoded_length(v), k, 7), chunk(e, k, 7)) by {}
    lemma_header_survives_one_flip_per_codeword(v, e);
}

/// A header whose codewords each have at most one bit flipped relative to
/// the header of the length `v` still decodes to `v`.
pub proof fn lemma_header_survives_one_flip_per_codeword(v: u32, received: Seq<bool>)
    requires
        received.len() == 56,
        forall|k: int| 0 <= k < 8 ==> within_one_flip(#[trigger] chunk(encoded_length(v), k, 7), chunk(received, k, 7)),
    ensures
        decode_length_spec(received) == Ok::<usize, Seq<char>>(v as usize),
{
    let lb = length_bits(v);
    assert forall|k: int| 0 <= k < 8 implies hamming_decode(chunk(received, k, 7)) == chunk(lb, k, 4) by {
        assert(chunk(encoded_length(v), k, 7) =~= hamming_encode(chunk(lb, k, 4))) by {
            assert forall|j: int| 0 <= j < 7 implies chunk(encoded_length(v), k, 7)[j] == hamming_encode(chunk(lb, k, 4))[j] by {
                lemma_div_mod(k, j, 7);
            }
        }
        assert(within_one_flip(chunk(encoded_length(v), k, 7), chunk(received, k, 7)));
        lemma_hamming_corrects_one_flip(chunk(lb, k, 4), chunk(received, k, 7));
    }
    assert forall|i: int| 0 <= i < 32 implies decoded_length_bits(received)[i] == lb[i] by {
        let k = i / 4;
        let j = i % 4;
        assert(0 <= k < 8 && 0 <= j < 4 && i == 4 * k + j);
        assert(hamming_decode(chunk(received, k, 7)) == chunk(lb, k, 4));
    }
    assert(decoded_length_bits(received) =~= lb);
    lemma_length_bits_value(v);
}

} // verus!
