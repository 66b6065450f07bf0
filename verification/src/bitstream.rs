//! Conversion between bytes and most-significant-bit-first bit sequences.
use vstd::prelude::*;

verus! {

/// Bit `j` (0 = most significant) of `b`.
pub open spec fn bit_of(b: u8, j: int) -> bool {
    (b >> ((7 - j) as u8)) & 1u8 == 1u8
}

/// The bits of a byte sequence: byte `k / 8`, bit `k % 8` counted from the
/// most significant end.
pub open spec fn bits_of_bytes(bytes: Seq<u8>) -> Seq<bool> {
    Seq::new(8 * bytes.len(), |k: int| bit_of(bytes[k / 8], k % 8))
}

/// A chunk of at most eight bits packed into a byte, the first bit in the
/// most significant position; missing trailing bits count as zero.
pub open spec fn pack_chunk(chunk: Seq<bool>) -> u8
    decreases chunk.len(),
{
    if chunk.len() == 0 {
        0u8
    } else {
        let rest = pack_chunk(chunk.drop_last());
        if chunk.last() {
            rest | (1u8 << ((7 - (chunk.len() - 1)) as u8))
        } else {
            rest
        }
    }
}

/// Number of bytes needed for `n` bits (the last one possibly partial).
pub open spec fn byte_count(n: nat) -> nat {
    (n + 7) / 8
}

/// The bits grouped in chunks of eight (the last one possibly shorter), each
/// chunk packed into a byte.
pub open spec fn bytes_of_bits(bits: Seq<bool>) -> Seq<u8> {
    Seq::new(
        byte_count(bits.len()),
        |i: int|
            pack_chunk(
                bits.subrange(8 * i, if 8 * i + 8 <= bits.len() { 8 * i + 8 } else { bits.len() as int }),
            ),
    )
}

/// Dividing `m * i + j` by `m` gives back `i` and `j`, for `0 <= j < m`.
pub(crate) proof fn lemma_div_mod(i: int, j: int, m: int)
    requires
        0 <= i,
        0 <= j < m,
    ensures
        (m * i + j) / m == i,
        (m * i + j) % m == j,
{
    assert((m * i + j) / m == i && (m * i + j) % m == j) by (nonlinear_arith)
        requires
            0 <= i,
            0 <= j < m,
    ;
}

/// Splits each byte into its eight bits, most significant first.
pub fn bytes_to_bits(bytes: &[u8]) -> (bits: Vec<bool>)
    requires
        8 * bytes@.len() <= usize::MAX,
    ensures
        bits@ == bits_of_bytes(bytes@),
{
    let mut bits: Vec<bool> = Vec::new();
    let mut i: usize = 0;
    while i < bytes.len()
        invariant
            i <= bytes@.len(),
            8 * bytes@.len() <= usize::MAX,
            bits@.len() == 8 * i,
            forall|k: int| 0 <= k < 8 * i ==> bits@[k] == bit_of(bytes@[k / 8], k % 8),
        decreases bytes@.len() - i,
    {
        let byte = bytes[i];
        let mut shift: u8 = 8;
        while shift > 0
            invariant
                i < bytes@.len(),
                byte == bytes@[i as int],
                shift <= 8,
                bits@.len() == 8 * i + (8 - shift),
                forall|k: int| 0 <= k < 8 * i ==> bits@[k] == bit_of(bytes@[k / 8], k % 8),
                forall|j: int| 0 <= j < 8 - shift ==> bits@[8 * i + j] == bit_of(byte, j),
            decreases shift,
        {
            shift = shift - 1;
            bits.push(((byte >> shift) & 1) == 1);
        }
        proof {
            assert forall|k: int| 0 <= k < 8 * (i + 1) implies bits@[k] == bit_of(bytes@[k / 8], k % 8) by {
                if k >= 8 * i {
                    lemma_div_mod(i as int, k - 8 * i, 8);
                }
            }
        }
        i = i + 1;
    }
    bits
}

/// Packs the bits into bytes, eight at a time, the first bit of each group
/// in the most significant position; a final short group is padded with
/// zero bits at the low end.
pub fn bits_to_bytes(bits: &[bool]) -> (bytes: Vec<u8>)
    ensures
        bytes@ == bytes_of_bits(bits@),
{
    let mut bytes: Vec<u8> = Vec::new();
    let n = bits.len();
    let mut start: usize = 0;
    while start < n
        invariant
            n == bits@.len(),
            start <= n,
            start % 8 == 0 || start == n,
            bytes@.len() == byte_count(start as nat),
            forall|i: int|
                0 <= i < bytes@.len() ==> #[trigger] bytes@[i] == bytes_of_bits(bits@)[i],
        decreases n - start,
    {
        let end: usize = if n - start >= 8 { start + 8 } else { n };
        let mut byte: u8 = 0;
        let mut i: usize = 0;
        while start + i < end
            invariant
                start < end <= n,
                end - start <= 8,
                n == bits@.len(),
                start + i <= end,
                byte == pack_chunk(bits@.subrange(start as int, (start + i) as int)),
            decreases end - start - i,
        {
            let ghost chunk = bits@.subrange(start as int, (start + i + 1) as int);
            assert(chunk.drop_last() =~= bits@.subrange(start as int, (start + i) as int));
            if bits[start + i] {
                byte = byte | (1u8 << (7 - i) as u8);
            }
            i = i + 1;
        }
        proof {
            let k = start as int / 8;
            lemma_div_mod(k, 0, 8);
            assert(8 * k == start);
            assert((start + 7) / 8 == k);
            if end == start + 8 {
                lemma_div_mod(k + 1, 7, 8);
            } else {
                assert((end + 7) / 8 == k + 1) by (nonlinear_arith)
                    requires end > start, end < start + 8, start == 8 * k, k >= 0;
            }
            assert(bytes_of_bits(bits@)[k] == byte);
        }
        bytes.push(byte);
        start = end;
    }
    proof {
        assert(bytes@ =~= bytes_of_bits(bits@));
    }
    bytes
}

proof fn lemma_pack_chunk_step(s: Seq<bool>, k: int)
    requires
        0 <= k < s.len(),
    ensures
        pack_chunk(s.take(k + 1)) == (if s[k] {
            pack_chunk(s.take(k)) | (1u8 << ((7 - k) as u8))
        } else {
            pack_chunk(s.take(k))
        }),
{
    assert(s.take(k + 1).drop_last() =~= s.take(k));
}

/// Packing the eight bits of a byte gives the byte back.
proof fn lemma_pack_byte_bits(b: u8, s: Seq<bool>)
    requires
        s.len() == 8,
        forall|j: int| 0 <= j < 8 ==> s[j] == bit_of(b, j),
    ensures
        pack_chunk(s) == b,
{
    lemma_pack_take(b, s, 8);
    assert(s.take(8) =~= s);
    lemma_pack_prefix_full(b);
}

proof fn lemma_pack_take(b: u8, s: Seq<bool>, k: int)
    requires
        0 <= k <= 8,
        s.len() == 8,
        forall|j: int| 0 <= j < 8 ==> s[j] == bit_of(b, j),
    ensures
        pack_chunk(s.take(k)) == pack_prefix(b, k),
    decreases k,
{
    if k == 0 {
        assert(s.take(0) =~= Seq::<bool>::empty());
    } else {
        lemma_pack_take(b, s, k - 1);
        lemma_pack_chunk_step(s, k - 1);
    }
}

spec fn pack_prefix(b: u8, k: int) -> u8
    decreases k,
{
    if k <= 0 {
        0u8
    } else if bit_of(b, k - 1) {
        pack_prefix(b, k - 1) | (1u8 << ((7 - (k - 1)) as u8))
    } else {
        pack_prefix(b, k - 1)
    }
}

proof fn lemma_pack_prefix_full(b: u8)
    ensures
        pack_prefix(b, 8) == b,
{
    reveal_with_fuel(pack_prefix, 2);
    let p1 = pack_prefix(b, 1);
    let p2 = pack_prefix(b, 2);
    let p3 = pack_prefix(b, 3);
    let p4 = pack_prefix(b, 4);
    let p5 = pack_prefix(b, 5);
    let p6 = pack_prefix(b, 6);
    let p7 = pack_prefix(b, 7);
    let p8 = pack_prefix(b, 8);
    assert(p8 == b) by (bit_vector)
        requires
            p1 == (if (b >> 7u8) & 1u8 == 1u8 { 0u8 | (1u8 << 7u8) } else { 0u8 }),
            p2 == (if (b >> 6u8) & 1u8 == 1u8 { p1 | (1u8 << 6u8) } else { p1 }),
            p3 == (if (b >> 5u8) & 1u8 == 1u8 { p2 | (1u8 << 5u8) } else { p2 }),
            p4 == (if (b >> 4u8) & 1u8 == 1u8 { p3 | (1u8 << 4u8) } else { p3 }),
            p5 == (if (b >> 3u8) & 1u8 == 1u8 { p4 | (1u8 << 3u8) } else { p4 }),
            p6 == (if (b >> 2u8) & 1u8 == 1u8 { p5 | (1u8 << 2u8) } else { p5 }),
            p7 == (if (b >> 1u8) & 1u8 == 1u8 { p6 | (1u8 << 1u8) } else { p6 }),
            p8 == (if (b >> 0u8) & 1u8 == 1u8 { p7 | (1u8 << 0u8) } else { p7 }),
    ;
}

/// Packing the bits of a byte sequence gives the byte sequence back:
/// `bits_to_bytes(bytes_to_bits(b)) == b`.
pub proof fn lemma_bytes_bits_round_trip(bytes: Seq<u8>)
    ensures
        bytes_of_bits(bits_of_bytes(bytes)) == bytes,
{
    let bits = bits_of_bytes(bytes);
    let n = bytes.len();
    assert(byte_count(8 * n) == n) by (nonlinear_arith)
        requires n >= 0;
    assert forall|i: int| 0 <= i < n implies #[trigger] bytes_of_bits(bits)[i] == bytes[i] by {
        let chunk = bits.subrange(8 * i, 8 * i + 8);
        assert(8 * i + 8 <= bits.len()) by (nonlinear_arith)
            requires 0 <= i < n, bits.len() == 8 * n;
        assert forall|j: int| 0 <= j < 8 implies chunk[j] == bit_of(bytes[i], j) by {
            lemma_div_mod(i, j, 8);
        }
        lemma_pack_byte_bits(bytes[i], chunk);
    }
    assert(bytes_of_bits(bits) =~= bytes);
}

/// The value of a bit sequence read most significant bit first.
pub open spec fn bits_value(bits: Seq<bool>) -> nat
    decreases bits.len(),
{
    if bits.len() == 0 {
        0
    } else {
        2 * bits_value(bits.drop_last()) + (if bits.last() { 1nat } else { 0nat })
    }
}

/// `2` to the power `n`.
pub open spec fn pow2_nat(n: nat) -> nat
    decreases n,
{
    if n == 0 {
        1
    } else {
        2 * pow2_nat((n - 1) as nat)
    }
}

/// Each power of two doubles the one before.
pub proof fn lemma_pow2_step(n: nat)
    requires
        n > 0,
    ensures
        pow2_nat(n) == 2 * pow2_nat((n - 1) as nat),
{
}

/// Powers of two grow with the exponent.
pub proof fn lemma_pow2_mono(a: nat, b: nat)
    requires
        a <= b,
    ensures
        pow2_nat(a) <= pow2_nat(b),
    decreases b,
{
    if a < b {
        lemma_pow2_mono(a, (b - 1) as nat);
    }
}

/// A few powers of two used as bounds.
pub proof fn lemma_pow2_values()
    ensures
        pow2_nat(7) == 128,
        pow2_nat(31) == 0x8000_0000,
{
    reveal_with_fuel(pow2_nat, 32);
}

} // verus!
