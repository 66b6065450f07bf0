//! Planning where payload bits go among the 8x8 blocks of an image.
pub mod ecc;
pub mod positions;

use vstd::prelude::*;
use vstd::string::StringExecFns;

use crate::text::{decimal, msg_view, push_decimal};
use crate::bitstream::{bits_of_bytes, bits_to_bytes, bytes_of_bits, bytes_to_bits, lemma_bytes_bits_round_trip};
use ecc::{decode_length, decode_length_spec, encode_length, encoded_length, hamming_encode, hamming_syndrome, length_bits, lemma_encoded_length_codewords, lemma_header_survives_one_flip_per_codeword, within_one_flip, chunk};
use positions::{capacity_spec, ordered_positions, shuffled_positions, shuffled_spec, usable_in_range, Position};

verus! {

broadcast use vstd::seq_lib::group_to_multiset_ensures;

/// A bit to force into a block: coefficient row, column, and the bit.
pub type Assignment = (usize, usize, bool);

/// A coefficient to read from a block: the bit's index in the sequence
/// being read, coefficient row and column.
pub type Slot = (usize, usize, usize);

/// Nested vectors taken by their contents.
pub open spec fn nested_view<T>(a: Seq<Vec<T>>) -> Seq<Seq<T>> {
    Seq::new(a.len(), |i: int| a[i]@)
}

/// `n` empty lists.
pub open spec fn empty_lists<T>(n: nat) -> Seq<Seq<T>> {
    Seq::new(n, |i: int| Seq::<T>::empty())
}

/// Per-block assignments after the first `k` bits went, in order, to the
/// first `k` slots of `pos`.
pub open spec fn assign_upto(n: nat, pos: Seq<Position>, bits: Seq<bool>, k: int) -> Seq<Seq<Assignment>>
    decreases k,
{
    if k <= 0 {
        empty_lists(n)
    } else {
        let prev = assign_upto(n, pos, bits, k - 1);
        let p = pos[k - 1];
        prev.update(p.0 as int, prev[p.0 as int].push((p.1, p.2, bits[k - 1])))
    }
}

/// Per-block reading slots for the first `k` slots of `pos`.
pub open spec fn slots_upto(n: nat, pos: Seq<Position>, k: int) -> Seq<Seq<Slot>>
    decreases k,
{
    if k <= 0 {
        empty_lists(n)
    } else {
        let prev = slots_upto(n, pos, k - 1);
        let p = pos[k - 1];
        prev.update(p.0 as int, prev[p.0 as int].push(((k - 1) as usize, p.1, p.2)))
    }
}

/// The message for a request beyond the capacity.
pub open spec fn capacity_msg(need: nat, have: nat) -> Seq<char> {
    "Not enough capacity: need "@ + decimal(need) + " bits, have "@ + decimal(have) + " bits"@
}

/// Every slot names a block below `n`.
pub open spec fn positions_in_range(pos: Seq<Position>, n: nat) -> bool {
    forall|i: int| 0 <= i < pos.len() ==> (#[trigger] pos[i]).0 < n
}

proof fn lemma_ordered_in_range(textured: Seq<bool>, usable: Seq<usize>)
    requires
        usable_in_range(textured, usable),
    ensures
        positions_in_range(ordered_positions(textured, usable), textured.len()),
    decreases usable.len(),
{
    if usable.len() > 0 {
        assert(usable_in_range(textured, usable.drop_last()));
        lemma_ordered_in_range(textured, usable.drop_last());
        assert(usable.last() == usable[usable.len() - 1]);
    }
}

proof fn lemma_shuffled_in_range(password: &str, textured: Seq<bool>, usable: Seq<usize>, shuffled: Seq<Position>)
    requires
        usable_in_range(textured, usable),
        shuffled.to_multiset() == ordered_positions(textured, usable).to_multiset(),
    ensures
        positions_in_range(shuffled, textured.len()),
        shuffled.len() == capacity_spec(textured, usable),
{
    let ordered = ordered_positions(textured, usable);
    lemma_ordered_in_range(textured, usable);
    assert(shuffled.to_multiset().len() == ordered.to_multiset().len());
    assert forall|i: int| 0 <= i < shuffled.len() implies (#[trigger] shuffled[i]).0 < textured.len() by {
        assert(shuffled.contains(shuffled[i]));
        assert(shuffled.to_multiset().count(shuffled[i]) > 0);
        assert(ordered.contains(shuffled[i]));
    }
}

/// Builds the message for a request beyond the capacity.
fn capacity_error(need: usize, have: usize) -> (e: String)
    ensures
        e@ == capacity_msg(need as nat, have as nat),
{
    let mut msg = String::from_str("Not enough capacity: need ");
    push_decimal(&mut msg, need as u64);
    msg.append(" bits, have ");
    push_decimal(&mut msg, have as u64);
    msg.append(" bits");
    msg
}

fn empty_vecs<T>(n: usize) -> (v: Vec<Vec<T>>)
    ensures
        v@.len() == n,
        nested_view(v@) == empty_lists::<T>(n as nat),
{
    let mut v: Vec<Vec<T>> = Vec::new();
    let mut i: usize = 0;
    while i < n
        invariant
            i <= n,
            v@.len() == i,
            nested_view(v@) == empty_lists::<T>(i as nat),
        decreases n - i,
    {
        let e: Vec<T> = Vec::new();
        assert(e@ =~= Seq::<T>::empty());
        let ghost before = v@;
        v.push(e);
        i = i + 1;
        assert forall|j: int| 0 <= j < i implies v@[j]@ == Seq::<T>::empty() by {
            if j < i - 1 {
                assert(v@[j] == before[j]);
                assert(nested_view(before)[j] == empty_lists::<T>((i - 1) as nat)[j]);
            }
        }
        assert(nested_view(v@) =~= empty_lists::<T>(i as nat));
    }
    v
}

/// Decides which bit goes to which coefficient of which block: the bits in
/// order onto the slots in the order keyed by the password. Fails when the
/// bits outnumber the slots. `textured[b]` says whether block `b` is
/// textured.
pub fn plan_embedding(textured: &[bool], usable_block_indices: &[usize], bits: &[bool], password: &str) -> (r: Result<Vec<Vec<Assignment>>, String>)
    requires
        usable_in_range(textured@, usable_block_indices@),
        4 * usable_block_indices@.len() <= usize::MAX,
    ensures
        ({
            let cap = capacity_spec(textured@, usable_block_indices@);
            match r {
                Err(e) => bits@.len() > cap && e@ == capacity_msg(bits@.len(), cap),
                Ok(a) => bits@.len() <= cap && nested_view(a@) == assign_upto(
                    textured@.len(),
                    shuffled_spec(password, textured@, usable_block_indices@),
                    bits@,
                    bits@.len() as int,
                ),
            }
        }),
        r matches Ok(a) ==> (usable_block_indices@.no_duplicates() ==> coefficients_distinct(nested_view(a@))),
{
    let cap = positions::capacity_bits(textured, usable_block_indices);
    if bits.len() > cap {
        return Err(capacity_error(bits.len(), cap));
    }
    let pos = shuffled_positions(password, textured, usable_block_indices);
    proof {
        lemma_shuffled_in_range(password, textured@, usable_block_indices@, pos@);
    }
    let n = textured.len();
    let mut assignments: Vec<Vec<Assignment>> = empty_vecs(n);
    let mut k: usize = 0;
    while k < bits.len()
        invariant
            k <= bits@.len() <= pos@.len(),
            n == textured@.len(),
            positions_in_range(pos@, n as nat),
            assignments@.len() == n,
            nested_view(assignments@) == assign_upto(n as nat, pos@, bits@, k as int),
        decreases bits@.len() - k,
    {
        let (b, row, col) = pos[k];
        assert(pos@[k as int].0 < n);
        let ghost prev = nested_view(assignments@);
        assignments[b].push((row, col, bits[k]));
        k = k + 1;
        assert(nested_view(assignments@) =~= assign_upto(n as nat, pos@, bits@, k as int));
    }
    proof {
        if usable_block_indices@.no_duplicates() {
            lemma_planned_coefficients_distinct(n as nat, pos@, bits@, k as int);
        }
    }
    Ok(assignments)
}

/// Decides which coefficient of which block holds each of the first
/// `bit_count` bits, grouped by block: the same keyed order as
/// `plan_embedding`. Fails when more bits are asked for than there are
/// slots.
pub fn plan_extraction(textured: &[bool], usable_block_indices: &[usize], bit_count: usize, password: &str) -> (r: Result<Vec<Vec<Slot>>, String>)
    requires
        usable_in_range(textured@, usable_block_indices@),
        4 * usable_block_indices@.len() <= usize::MAX,
    ensures
        ({
            let cap = capacity_spec(textured@, usable_block_indices@);
            match r {
                Err(e) => bit_count > cap && e@ == capacity_msg(bit_count as nat, cap),
                Ok(s) => bit_count <= cap && nested_view(s@) == slots_upto(
                    textured@.len(),
                    shuffled_spec(password, textured@, usable_block_indices@),
                    bit_count as int,
                ),
            }
        }),
{
    let cap = positions::capacity_bits(textured, usable_block_indices);
    if bit_count > cap {
        return Err(capacity_error(bit_count, cap));
    }
    let pos = shuffled_positions(password, textured, usable_block_indices);
    proof {
        lemma_shuffled_in_range(password, textured@, usable_block_indices@, pos@);
    }
    let n = textured.len();
    let mut slots: Vec<Vec<Slot>> = empty_vecs(n);
    let mut k: usize = 0;
    while k < bit_count
        invariant
            k <= bit_count <= pos@.len(),
            n == textured@.len(),
            positions_in_range(pos@, n as nat),
            slots@.len() == n,
            nested_view(slots@) == slots_upto(n as nat, pos@, k as int),
        decreases bit_count - k,
    {
        let (b, row, col) = pos[k];
        assert(pos@[k as int].0 < n);
        slots[b].push((k, row, col));
        k = k + 1;
        assert(nested_view(slots@) =~= slots_upto(n as nat, pos@, k as int));
    }
    Ok(slots)
}

/// The bits after writing `vals[j]` at index `ps[j].0`, in order.
pub open spec fn apply_block(bits: Seq<bool>, ps: Seq<Slot>, vals: Seq<bool>) -> Seq<bool>
    decreases ps.len(),
{
    if ps.len() == 0 {
        bits
    } else {
        apply_block(bits, ps.drop_last(), vals.drop_last()).update(ps.last().0 as int, vals.last())
    }
}

/// The bits after the writes of blocks `0..n`, block by block.
pub open spec fn apply_all(bits: Seq<bool>, slots: Seq<Seq<Slot>>, vals: Seq<Seq<bool>>, n: int) -> Seq<bool>
    decreases n,
{
    if n <= 0 {
        bits
    } else {
        apply_block(apply_all(bits, slots, vals, n - 1), slots[n - 1], vals[n - 1])
    }
}

/// Every slot's sequence index is below `count`, and each block has one
/// value per slot.
pub open spec fn readings_fit(slots: Seq<Seq<Slot>>, vals: Seq<Seq<bool>>, count: nat) -> bool {
    &&& slots.len() == vals.len()
    &&& forall|b: int| 0 <= b < slots.len() ==> (#[trigger] slots[b]).len() == vals[b].len()
    &&& forall|b: int, j: int|
        0 <= b < slots.len() && 0 <= j < slots[b].len() ==> (#[trigger] slots[b][j]).0 < count
}

/// Puts the bits read from each block back into sequence order:
/// `block_bits[b][j]` is the bit read at slot `positions_by_block[b][j]`.
/// Indices no slot names stay `false`.
pub fn collect_bits(positions_by_block: &[Vec<Slot>], block_bits: &[Vec<bool>], bit_count: usize) -> (bits: Vec<bool>)
    requires
        readings_fit(nested_view(positions_by_block@), nested_view(block_bits@), bit_count as nat),
    ensures
        bits@ == apply_all(
            Seq::new(bit_count as nat, |i: int| false),
            nested_view(positions_by_block@),
            nested_view(block_bits@),
            positions_by_block@.len() as int,
        ),
{
    let ghost slots = nested_view(positions_by_block@);
    let ghost vals = nested_view(block_bits@);
    let mut bits: Vec<bool> = Vec::new();
    let mut i: usize = 0;
    while i < bit_count
        invariant
            i <= bit_count,
            bits@ == Seq::new(i as nat, |k: int| false),
        decreases bit_count - i,
    {
        bits.push(false);
        i = i + 1;
        assert(bits@ =~= Seq::new(i as nat, |k: int| false));
    }
    let mut b: usize = 0;
    while b < positions_by_block.len()
        invariant
            b <= positions_by_block@.len(),
            slots == nested_view(positions_by_block@),
            vals == nested_view(block_bits@),
            readings_fit(slots, vals, bit_count as nat),
            bits@.len() == bit_count,
            bits@ == apply_all(Seq::new(bit_count as nat, |i: int| false), slots, vals, b as int),
        decreases positions_by_block@.len() - b,
    {
        let ps = &positions_by_block[b];
        let vs = &block_bits[b];
        assert(ps@ == slots[b as int]);
        assert(vs@ == vals[b as int]);
        let ghost start = bits@;
        let mut j: usize = 0;
        while j < ps.len()
            invariant
                b < positions_by_block@.len(),
                slots == nested_view(positions_by_block@),
                vals == nested_view(block_bits@),
                ps@ == slots[b as int],
                vs@ == vals[b as int],
                ps@.len() == vs@.len(),
                readings_fit(slots, vals, bit_count as nat),
                j <= ps@.len(),
                bits@.len() == bit_count,
                bits@ == apply_block(start, ps@.take(j as int), vs@.take(j as int)),
            decreases ps@.len() - j,
        {
            let (idx, _, _) = ps[j];
            assert(slots[b as int][j as int].0 < bit_count);
            bits.set(idx, vs[j]);
            j = j + 1;
            assert(ps@.take(j as int).drop_last() =~= ps@.take(j - 1));
            assert(vs@.take(j as int).drop_last() =~= vs@.take(j - 1));
        }
        assert(ps@.take(j as int) =~= ps@);
        assert(vs@.take(j as int) =~= vs@);
        b = b + 1;
    }
    bits
}

/// Some slot of `ps` names sequence index `i`.
pub open spec fn block_hits(ps: Seq<Slot>, i: int) -> bool {
    exists|j: int| 0 <= j < ps.len() && (#[trigger] ps[j]).0 == i
}

/// Some slot of blocks `0..n` names sequence index `i`.
pub open spec fn hits(slots: Seq<Seq<Slot>>, n: int, i: int) -> bool {
    exists|b: int| 0 <= b < n && #[trigger] block_hits(slots[b], i)
}

/// Each value written agrees with `bits` at the index it is written to.
pub open spec fn writes_agree(slots: Seq<Seq<Slot>>, vals: Seq<Seq<bool>>, bits: Seq<bool>) -> bool {
    forall|b: int, j: int|
        0 <= b < slots.len() && 0 <= j < slots[b].len() ==> vals[b][j] == bits[(#[trigger] slots[b][j]).0 as int]
}

proof fn lemma_apply_block(init: Seq<bool>, ps: Seq<Slot>, vals: Seq<bool>, bits: Seq<bool>)
    requires
        ps.len() == vals.len(),
        forall|j: int| 0 <= j < ps.len() ==> (#[trigger] ps[j]).0 < init.len(),
        forall|j: int| 0 <= j < ps.len() ==> vals[j] == bits[(#[trigger] ps[j]).0 as int],
    ensures
        apply_block(init, ps, vals).len() == init.len(),
        forall|i: int|
            0 <= i < init.len() ==> #[trigger] apply_block(init, ps, vals)[i] == (if block_hits(ps, i) {
                bits[i]
            } else {
                init[i]
            }),
    decreases ps.len(),
{
    if ps.len() > 0 {
        let ps0 = ps.drop_last();
        let v0 = vals.drop_last();
        assert forall|j: int| 0 <= j < ps0.len() implies (#[trigger] ps0[j]).0 < init.len() && v0[j] == bits[ps0[j].0 as int] by {
            assert(ps0[j] == ps[j]);
        }
        lemma_apply_block(init, ps0, v0, bits);
        let last = ps.last();
        assert(last == ps[ps.len() - 1]);
        assert forall|i: int| 0 <= i < init.len() implies #[trigger] apply_block(init, ps, vals)[i] == (if block_hits(ps, i) {
            bits[i]
        } else {
            init[i]
        }) by {
            if i == last.0 {
                assert(block_hits(ps, i));
            } else {
                if block_hits(ps, i) {
                    let j = choose|j: int| 0 <= j < ps.len() && (#[trigger] ps[j]).0 == i;
                    assert(ps0[j] == ps[j]);
                    assert(block_hits(ps0, i));
                }
                if block_hits(ps0, i) {
                    let j = choose|j: int| 0 <= j < ps0.len() && (#[trigger] ps0[j]).0 == i;
                    assert(ps[j] == ps0[j]);
                    assert(block_hits(ps, i));
                }
            }
        }
    }
}

proof fn lemma_apply_all(init: Seq<bool>, slots: Seq<Seq<Slot>>, vals: Seq<Seq<bool>>, bits: Seq<bool>, n: int)
    requires
        0 <= n <= slots.len(),
        readings_fit(slots, vals, init.len()),
        writes_agree(slots, vals, bits),
    ensures
        apply_all(init, slots, vals, n).len() == init.len(),
        forall|i: int|
            0 <= i < init.len() ==> #[trigger] apply_all(init, slots, vals, n)[i] == (if hits(slots, n, i) {
                bits[i]
            } else {
                init[i]
            }),
    decreases n,
{
    if n > 0 {
        lemma_apply_all(init, slots, vals, bits, n - 1);
        let prev = apply_all(init, slots, vals, n - 1);
        let ps = slots[n - 1];
        assert forall|j: int| 0 <= j < ps.len() implies (#[trigger] ps[j]).0 < prev.len() && vals[n - 1][j] == bits[ps[j].0 as int] by {
            assert(ps[j] == slots[n - 1][j]);
        }
        lemma_apply_block(prev, ps, vals[n - 1], bits);
        assert forall|i: int| 0 <= i < init.len() implies #[trigger] apply_all(init, slots, vals, n)[i] == (if hits(slots, n, i) {
            bits[i]
        } else {
            init[i]
        }) by {
            if hits(slots, n, i) {
                let b = choose|b: int| 0 <= b < n && #[trigger] block_hits(slots[b], i);
                if b < n - 1 {
                    assert(hits(slots, n - 1, i));
                }
            } else {
                assert(!block_hits(slots[n - 1], i));
                assert(!hits(slots, n - 1, i)) by {
                    if hits(slots, n - 1, i) {
                        let b = choose|b: int| 0 <= b < n - 1 && #[trigger] block_hits(slots[b], i);
                        assert(hits(slots, n, i));
                    }
                }
            }
            if block_hits(slots[n - 1], i) {
                assert(hits(slots, n, i));
            }
        }
    }
}

/// The plans of the first `k` bits agree: per block, the same coefficients
/// in the same order, each assignment carrying the bit that the matching
/// slot's sequence index names; every index below `k` has a slot, and no
/// other index does.
proof fn lemma_plans_agree(n: nat, pos: Seq<Position>, bits: Seq<bool>, k: int)
    requires
        positions_in_range(pos, n),
        0 <= k <= pos.len(),
        pos.len() <= usize::MAX,
        k <= bits.len(),
    ensures
        ({
            let a = assign_upto(n, pos, bits, k);
            let s = slots_upto(n, pos, k);
            &&& a.len() == n
            &&& s.len() == n
            &&& forall|b: int| 0 <= b < n ==> (#[trigger] a[b]).len() == s[b].len()
            &&& forall|b: int, j: int|
                0 <= b < n && 0 <= j < s[b].len() ==> {
                    &&& (#[trigger] s[b][j]).0 < k
                    &&& a[b][j] == (s[b][j].1, s[b][j].2, bits[s[b][j].0 as int])
                }
            &&& forall|i: int| 0 <= i < k ==> hits(s, n as int, i)
        }),
    decreases k,
{
    if k > 0 {
        lemma_plans_agree(n, pos, bits, k - 1);
        let a0 = assign_upto(n, pos, bits, k - 1);
        let s0 = slots_upto(n, pos, k - 1);
        let a = assign_upto(n, pos, bits, k);
        let s = slots_upto(n, pos, k);
        let p = pos[k - 1];
        assert(p.0 < n);
        let pb = p.0 as int;
        assert(s == s0.update(pb, s0[pb].push(((k - 1) as usize, p.1, p.2))));
        assert(a == a0.update(pb, a0[pb].push((p.1, p.2, bits[k - 1]))));
        assert(s[pb][s0[pb].len() as int] == ((k - 1) as usize, p.1, p.2));
        assert(a[pb][a0[pb].len() as int] == (p.1, p.2, bits[k - 1]));
        assert forall|b: int| 0 <= b < n implies (#[trigger] a[b]).len() == s[b].len() by {
            if b != pb {
                assert(a[b] == a0[b]);
            }
        }
        assert forall|b: int, j: int| 0 <= b < n && 0 <= j < s[b].len() implies {
            &&& (#[trigger] s[b][j]).0 < k
            &&& a[b][j] == (s[b][j].1, s[b][j].2, bits[s[b][j].0 as int])
        } by {
            if b != pb || j < s0[b].len() {
                assert(s[b][j] == s0[b][j]);
                assert(a[b][j] == a0[b][j]);
            } else {
                assert(j == s0[pb].len());
                assert(a0[pb].len() == s0[pb].len());
            }
        }
        assert forall|i: int| 0 <= i < k implies hits(s, n as int, i) by {
            if i == k - 1 {
                let j = s0[pb].len() as int;
                assert(s[pb][j].0 == i);
                assert(block_hits(s[pb], i));
            } else {
                assert(hits(s0, n as int, i));
                let b = choose|b: int| 0 <= b < n && #[trigger] block_hits(s0[b], i);
                let j = choose|j: int| 0 <= j < s0[b].len() && (#[trigger] s0[b][j]).0 == i;
                assert(s[b][j] == s0[b][j]);
                assert(block_hits(s[b], i));
            }
        }
    } else {
        assert forall|b: int| 0 <= b < n implies (#[trigger] assign_upto(n, pos, bits, k)[b]).len()
            == slots_upto(n, pos, k)[b].len() by {}
    }
}

/// The plans follow the keyed slots: every entry of block `b` comes from a
/// sequence index `i` whose slot lies in block `b`, and names exactly that
/// slot's coefficient (row, column), with bit `bits[i]` in the embedding
/// plan; within a block the entries come in sequence order; and every
/// index below `k` has an entry in its slot's block.
pub proof fn lemma_plans_follow_positions(n: nat, pos: Seq<Position>, bits: Seq<bool>, k: int)
    requires
        positions_in_range(pos, n),
        0 <= k <= pos.len(),
        pos.len() <= usize::MAX,
        k <= bits.len(),
    ensures
        ({
            let a = assign_upto(n, pos, bits, k);
            let s = slots_upto(n, pos, k);
            &&& forall|b: int, j: int|
                0 <= b < n && 0 <= j < s[b].len() ==> {
                    let i = (#[trigger] s[b][j]).0 as int;
                    &&& 0 <= i < k
                    &&& pos[i].0 == b
                    &&& s[b][j] == (i as usize, pos[i].1, pos[i].2)
                    &&& a[b][j] == (pos[i].1, pos[i].2, bits[i])
                }
            &&& forall|b: int, j1: int, j2: int|
                0 <= b < n && 0 <= j1 < j2 < s[b].len() ==> (#[trigger] s[b][j1]).0 < (#[trigger] s[b][j2]).0
            &&& forall|i: int| 0 <= i < k ==> #[trigger] block_hits(s[pos[i].0 as int], i)
        }),
    decreases k,
{
    lemma_plans_agree(n, pos, bits, k);
    if k > 0 {
        lemma_plans_follow_positions(n, pos, bits, k - 1);
        lemma_plans_agree(n, pos, bits, k - 1);
        let a0 = assign_upto(n, pos, bits, k - 1);
        let s0 = slots_upto(n, pos, k - 1);
        let a = assign_upto(n, pos, bits, k);
        let s = slots_upto(n, pos, k);
        let p = pos[k - 1];
        assert(p.0 < n);
        let pb = p.0 as int;
        assert(s == s0.update(pb, s0[pb].push(((k - 1) as usize, p.1, p.2))));
        assert(a == a0.update(pb, a0[pb].push((p.1, p.2, bits[k - 1]))));
        assert forall|b: int, j: int| 0 <= b < n && 0 <= j < s[b].len() implies {
            let i = (#[trigger] s[b][j]).0 as int;
            &&& 0 <= i < k
            &&& pos[i].0 == b
            &&& s[b][j] == (i as usize, pos[i].1, pos[i].2)
            &&& a[b][j] == (pos[i].1, pos[i].2, bits[i])
        } by {
            if b != pb || j < s0[b].len() {
                assert(s[b][j] == s0[b][j]);
                assert(a[b][j] == a0[b][j]);
            } else {
                assert(j == s0[pb].len());
                assert(s[b][j] == ((k - 1) as usize, p.1, p.2));
                assert(a[b][j] == (p.1, p.2, bits[k - 1]));
            }
        }
        assert forall|b: int, j1: int, j2: int|
            0 <= b < n && 0 <= j1 < j2 < s[b].len() implies (#[trigger] s[b][j1]).0 < (#[trigger] s[b][j2]).0 by {
            if b != pb || j2 < s0[b].len() {
                assert(s[b][j1] == s0[b][j1]);
                assert(s[b][j2] == s0[b][j2]);
            } else {
                assert(s[b][j1] == s0[b][j1]);
                assert(s0[b][j1].0 < k - 1);
            }
        }
        assert forall|i: int| 0 <= i < k implies #[trigger] block_hits(s[pos[i].0 as int], i) by {
            let bi = pos[i].0 as int;
            assert(pos[i].0 < n);
            if i == k - 1 {
                let j = s0[pb].len() as int;
                assert(s[pb][j].0 == i);
            } else {
                assert(block_hits(s0[bi], i));
                let j = choose|j: int| 0 <= j < s0[bi].len() && (#[trigger] s0[bi][j]).0 == i;
                assert(s[bi][j] == s0[bi][j]);
            }
        }
    }
}

/// Within each block, no two assignments force the same coefficient.
pub open spec fn coefficients_distinct(a: Seq<Seq<Assignment>>) -> bool {
    forall|b: int, j1: int, j2: int|
        0 <= b < a.len() && 0 <= j1 < a[b].len() && 0 <= j2 < a[b].len() && j1 != j2 ==> (#[trigger] a[b][j1]).0
            != (#[trigger] a[b][j2]).0 || a[b][j1].1 != a[b][j2].1
}

/// When no slot occurs twice in the keyed order, no coefficient of a block
/// is forced twice: within a block, the planned coefficients are pairwise
/// distinct.
pub proof fn lemma_planned_coefficients_distinct(n: nat, pos: Seq<Position>, bits: Seq<bool>, k: int)
    requires
        positions_in_range(pos, n),
        pos.no_duplicates(),
        0 <= k <= pos.len(),
        pos.len() <= usize::MAX,
        k <= bits.len(),
    ensures
        coefficients_distinct(assign_upto(n, pos, bits, k)),
{
    lemma_plans_agree(n, pos, bits, k);
    lemma_plans_follow_positions(n, pos, bits, k);
    let a = assign_upto(n, pos, bits, k);
    let s = slots_upto(n, pos, k);
    assert forall|b: int, j1: int, j2: int|
        0 <= b < n && 0 <= j1 < a[b].len() && 0 <= j2 < a[b].len() && j1 != j2 implies (#[trigger] a[b][j1]).0
        != (#[trigger] a[b][j2]).0 || a[b][j1].1 != a[b][j2].1 by {
        let i1 = s[b][j1].0 as int;
        let i2 = s[b][j2].0 as int;
        if j1 < j2 {
            assert(s[b][j1].0 < s[b][j2].0);
        } else {
            assert(s[b][j2].0 < s[b][j1].0);
        }
        assert(pos[i1] != pos[i2]);
        assert(pos[i1].0 == pos[i2].0);
    }
}

/// Per block, each slot names the coefficient of the assignment at the same
/// place.
pub open spec fn slots_match_assignments(slots: Seq<Seq<Slot>>, assignments: Seq<Seq<Assignment>>) -> bool {
    &&& forall|b: int| 0 <= b < slots.len() ==> (#[trigger] slots[b]).len() <= assignments[b].len()
    &&& forall|b: int, j: int|
        #![trigger slots[b][j]]
        0 <= b < slots.len() && 0 <= j < slots[b].len() ==> slots[b][j].1 == assignments[b][j].0 && slots[b][j].2
            == assignments[b][j].1
}

proof fn lemma_assign_prefix(n: nat, pos: Seq<Position>, bits: Seq<bool>, k: int, big: int)
    requires
        positions_in_range(pos, n),
        0 <= k <= big <= pos.len(),
    ensures
        assign_upto(n, pos, bits, big).len() == n,
        forall|b: int|
            0 <= b < n ==> (#[trigger] assign_upto(n, pos, bits, k)[b]).len() <= assign_upto(n, pos, bits, big)[b].len(),
        forall|b: int, j: int|
            0 <= b < n && 0 <= j < assign_upto(n, pos, bits, k)[b].len() ==> #[trigger] assign_upto(n, pos, bits, k)[b][j]
                == assign_upto(n, pos, bits, big)[b][j],
    decreases big - k,
{
    if big > k {
        lemma_assign_prefix(n, pos, bits, k, big - 1);
        let prev = assign_upto(n, pos, bits, big - 1);
        let cur = assign_upto(n, pos, bits, big);
        let p = pos[big - 1];
        assert(p.0 < n);
        assert(cur == prev.update(p.0 as int, prev[p.0 as int].push((p.1, p.2, bits[big - 1]))));
        assert forall|b: int, j: int|
            0 <= b < n && 0 <= j < assign_upto(n, pos, bits, k)[b].len() implies #[trigger] assign_upto(n, pos, bits, k)[b][j]
                == cur[b][j] by {
            assert(cur[b][j] == prev[b][j]);
        }
    } else {
        lemma_plans_len(n, pos, bits, k);
    }
}

proof fn lemma_plans_len(n: nat, pos: Seq<Position>, bits: Seq<bool>, k: int)
    requires
        positions_in_range(pos, n),
        0 <= k <= pos.len(),
    ensures
        assign_upto(n, pos, bits, k).len() == n,
    decreases k,
{
    if k > 0 {
        lemma_plans_len(n, pos, bits, k - 1);
    }
}

/// Reading back what was embedded: `plan_embedding` sent `bits`, in order,
/// onto the slots `pos`; `plan_extraction` asked for the first `count` of
/// them along the same slots. Per block, the slots read are the first
/// coefficients written, in the same order; and if each coefficient is read
/// back as the bit it was forced to, `collect_bits` returns the first
/// `count` bits. (Extraction reads the header this way, then all bits.)
pub proof fn lemma_extraction_reads_back_embedded_bits(
    n: nat,
    pos: Seq<Position>,
    bits: Seq<bool>,
    count: nat,
    vals: Seq<Seq<bool>>,
)
    requires
        positions_in_range(pos, n),
        count <= bits.len() <= pos.len(),
        pos.len() <= usize::MAX,
        vals.len() == n,
        forall|b: int| 0 <= b < n ==> (#[trigger] vals[b]).len() == slots_upto(n, pos, count as int)[b].len(),
        forall|b: int, j: int|
            0 <= b < n && 0 <= j < vals[b].len() ==> #[trigger] vals[b][j] == assign_upto(n, pos, bits, bits.len() as int)[b][j].2,
    ensures
        slots_match_assignments(slots_upto(n, pos, count as int), assign_upto(n, pos, bits, bits.len() as int)),
        apply_all(Seq::new(count, |i: int| false), slots_upto(n, pos, count as int), vals, n as int) == bits.take(
            count as int,
        ),
{
    let k = count as int;
    let big = bits.len() as int;
    lemma_plans_agree(n, pos, bits, k);
    lemma_assign_prefix(n, pos, bits, k, big);
    let s = slots_upto(n, pos, k);
    let a = assign_upto(n, pos, bits, k);
    let full = assign_upto(n, pos, bits, big);
    let target = bits.take(k);
    let init = Seq::new(count, |i: int| false);
    assert(readings_fit(s, vals, init.len()));
    assert forall|b: int, j: int| 0 <= b < s.len() && 0 <= j < s[b].len() implies vals[b][j] == target[(#[trigger] s[b][j]).0 as int] by {
        assert(a[b].len() == s[b].len());
        assert(a[b][j] == full[b][j]);
        assert(vals[b][j] == full[b][j].2);
    }
    assert forall|b: int| 0 <= b < s.len() implies (#[trigger] s[b]).len() <= full[b].len() by {
        assert(a[b].len() == s[b].len());
        assert(a[b].len() <= full[b].len());
    }
    assert forall|b: int, j: int|
        #![trigger s[b][j]]
        0 <= b < s.len() && 0 <= j < s[b].len() implies s[b][j].1 == full[b][j].0 && s[b][j].2 == full[b][j].1 by {
        assert(a[b].len() == s[b].len());
        assert(a[b][j] == full[b][j]);
    }
    assert(slots_match_assignments(s, full));
    lemma_apply_all(init, s, vals, target, n as int);
    assert(apply_all(init, s, vals, n as int) =~= target);
}

/// Slots every block offers.
pub fn bits_per_block() -> (n: usize)
    ensures
        n == 1,
{
    positions::bits_per_block()
}

/// Slots offered by `block_count` blocks, none of them textured.
pub fn capacity_bits(block_count: usize) -> (n: usize)
    ensures
        n == block_count,
{
    block_count * bits_per_block()
}

/// The largest payload, in bytes, whose header and bits fit in `cap` slots
/// (0 when not even the header fits).
pub open spec fn payload_bytes_for(cap: nat) -> nat {
    if cap >= 56 {
        ((cap - 56) as nat) / 8
    } else {
        0
    }
}

/// The largest payload, in bytes, that `block_count` flat blocks carry.
pub fn capacity_payload_bytes(block_count: usize) -> (n: usize)
    ensures
        n == payload_bytes_for(block_count as nat),
{
    capacity_bits(block_count).saturating_sub(ecc::HEADER_LEN_BITS) / 8
}

/// Slots the usable blocks offer, textured ones counting four.
pub fn adaptive_capacity_bits(textured: &[bool], usable_block_indices: &[usize]) -> (n: usize)
    requires
        usable_in_range(textured@, usable_block_indices@),
        4 * usable_block_indices@.len() <= usize::MAX,
    ensures
        n == capacity_spec(textured@, usable_block_indices@),
{
    positions::capacity_bits(textured, usable_block_indices)
}

/// The largest payload, in bytes, that the usable blocks carry.
pub fn adaptive_capacity_payload_bytes(textured: &[bool], usable_block_indices: &[usize]) -> (n: usize)
    requires
        usable_in_range(textured@, usable_block_indices@),
        4 * usable_block_indices@.len() <= usize::MAX,
    ensures
        n == payload_bytes_for(capacity_spec(textured@, usable_block_indices@)),
{
    adaptive_capacity_bits(textured, usable_block_indices).saturating_sub(ecc::HEADER_LEN_BITS) / 8
}

/// Bits needed for a payload of `payload_len` bytes behind the header.
pub fn payload_bits_required(payload_len: usize) -> (r: Option<usize>)
    ensures
        r == (if 56 + 8 * payload_len <= usize::MAX {
            Some((56 + 8 * payload_len) as usize)
        } else {
            None::<usize>
        }),
{
    ecc::payload_bits_required(payload_len)
}

/// The message refusing a payload too large for a cover image.
pub open spec fn cover_too_small_msg(need: nat, have: nat) -> Seq<char> {
    "Payload too large for cover image: need "@ + decimal(need) + " bits, have "@ + decimal(have) + " bits"@
}

/// The check made before embedding into a cover image: a payload of
/// `payload_len` bytes needs its bits and a 32-bit length field; returns
/// that count, or refuses when it exceeds `available_bits`.
pub fn check_cover_capacity(payload_len: usize, available_bits: usize) -> (r: Result<usize, String>)
    requires
        32 + 8 * payload_len <= usize::MAX,
    ensures
        msg_view(r) == (if 32 + 8 * payload_len > available_bits {
            Err(cover_too_small_msg((32 + 8 * payload_len) as nat, available_bits as nat))
        } else {
            Ok((32 + 8 * payload_len) as usize)
        }),
{
    let bits_needed = 32 + payload_len * 8;
    if bits_needed > available_bits {
        let mut msg = String::from_str("Payload too large for cover image: need ");
        push_decimal(&mut msg, bits_needed as u64);
        msg.append(" bits, have ");
        push_decimal(&mut msg, available_bits as u64);
        msg.append(" bits");
        return Err(msg);
    }
    Ok(bits_needed)
}

/// The capacity in payload bytes is the largest payload that fits: its
/// header and bits fit in `cap` slots, and one byte more does not.
pub proof fn lemma_payload_bytes_for_is_largest(cap: nat)
    ensures
        cap >= 56 ==> 56 + 8 * payload_bytes_for(cap) <= cap,
        56 + 8 * (payload_bytes_for(cap) + 1) > cap,
{
}

/// The bits embedded for a payload: the length header, then the payload's
/// bits.
pub open spec fn payload_bit_seq(payload: Seq<u8>) -> Seq<bool> {
    encoded_length(payload.len() as u32) + bits_of_bytes(payload)
}

/// The bits embedded for a payload begin with the exact header of its
/// length: eight clean Hamming(7,4) codewords (syndrome 0), codeword `k`
/// encoding nibble `k` of the length, which decode to the length; the
/// payload's own bits follow, eight per byte.
pub proof fn lemma_payload_header_exact(payload: Seq<u8>)
    requires
        payload.len() <= u32::MAX,
    ensures
        payload_bit_seq(payload).len() == 56 + 8 * payload.len(),
        payload_bit_seq(payload).take(56) == encoded_length(payload.len() as u32),
        forall|k: int|
            0 <= k < 8 ==> #[trigger] chunk(payload_bit_seq(payload), k, 7) == hamming_encode(
                chunk(length_bits(payload.len() as u32), k, 4),
            ) && hamming_syndrome(chunk(payload_bit_seq(payload), k, 7)) == 0,
        decode_length_spec(payload_bit_seq(payload).take(56)) == Ok::<usize, Seq<char>>(payload.len() as usize),
        payload_bit_seq(payload).subrange(56, 56 + 8 * payload.len() as int) == bits_of_bytes(payload),
{
    let v = payload.len() as u32;
    let bits = payload_bit_seq(payload);
    let e = encoded_length(v);
    lemma_encoded_length_codewords(v);
    assert(bits.take(56) =~= e);
    assert(bits.subrange(56, 56 + 8 * payload.len() as int) =~= bits_of_bytes(payload));
    assert forall|k: int| 0 <= k < 8 implies #[trigger] chunk(bits, k, 7) == hamming_encode(chunk(length_bits(v), k, 4))
        && hamming_syndrome(chunk(bits, k, 7)) == 0 by {
        assert(chunk(bits, k, 7) =~= chunk(e, k, 7));
    }
}

/// Decides where each bit of a payload (header and data) goes. Fails when
/// the bit count overflows, when the payload does not fit, or when its
/// length exceeds 32 bits.
pub fn plan_payload_embedding(textured: &[bool], usable_block_indices: &[usize], payload: &[u8], password: &str) -> (r: Result<Vec<Vec<Assignment>>, String>)
    requires
        usable_in_range(textured@, usable_block_indices@),
        4 * usable_block_indices@.len() <= usize::MAX,
    ensures
        ({
            let cap = capacity_spec(textured@, usable_block_indices@);
            let total: int = 56 + 8 * payload@.len() as int;
            match r {
                Err(e) => if total > usize::MAX {
                    e@ == "Total bit length overflow"@
                } else if total > cap {
                    e@ == capacity_msg(total as nat, cap)
                } else {
                    payload@.len() > u32::MAX && e@ == "Payload too large"@
                },
                Ok(a) => total <= cap && payload@.len() <= u32::MAX && nested_view(a@) == assign_upto(
                    textured@.len(),
                    shuffled_spec(password, textured@, usable_block_indices@),
                    payload_bit_seq(payload@),
                    total,
                ),
            }
        }),
{
    let total_bits = match payload_bits_required(payload.len()) {
        Some(t) => t,
        None => return Err(String::from_str("Total bit length overflow")),
    };
    let cap = adaptive_capacity_bits(textured, usable_block_indices);
    if total_bits > cap {
        return Err(capacity_error(total_bits, cap));
    }
    let mut bits = match encode_length(payload.len()) {
        Ok(b) => b,
        Err(e) => return Err(e),
    };
    let mut data_bits = bytes_to_bits(payload);
    bits.append(&mut data_bits);
    assert(bits@ == payload_bit_seq(payload@));
    plan_embedding(textured, usable_block_indices, bits.as_slice(), password)
}

/// What `payload_total_bits` gives for a header and a capacity.
pub open spec fn total_bits_spec(header_bits: Seq<bool>, capacity: nat) -> Result<usize, Seq<char>> {
    match decode_length_spec(header_bits) {
        Err(e) => Err(e),
        Ok(len) => if 56 + 8 * len > usize::MAX {
            if 8 * len > usize::MAX {
                Err("Payload bit length overflow"@)
            } else {
                Err("Total bit length overflow"@)
            }
        } else if 56 + 8 * len > capacity {
            Err("Invalid password or corrupted stego image"@)
        } else {
            Ok((56 + 8 * len) as usize)
        },
    }
}

/// From the header bits read back, the number of bits to read in all
/// (header and payload); a length beyond the capacity means a wrong
/// password or a damaged image.
pub fn payload_total_bits(header_bits: &[bool], capacity: usize) -> (r: Result<usize, String>)
    ensures
        msg_view(r) == total_bits_spec(header_bits@, capacity as nat),
{
    let payload_len = match decode_length(header_bits) {
        Ok(v) => v,
        Err(e) => return Err(e),
    };
    let payload_bits = match payload_len.checked_mul(8) {
        Some(b) => b,
        None => return Err(String::from_str("Payload bit length overflow")),
    };
    let total_bits = match ecc::HEADER_LEN_BITS.checked_add(payload_bits) {
        Some(t) => t,
        None => return Err(String::from_str("Total bit length overflow")),
    };
    if total_bits > capacity {
        return Err(String::from_str("Invalid password or corrupted stego image"));
    }
    Ok(total_bits)
}

/// The payload bytes behind the header in the bits read back.
pub fn payload_from_bits(all_bits: &[bool]) -> (payload: Vec<u8>)
    requires
        all_bits@.len() >= 56,
    ensures
        payload@ == bytes_of_bits(all_bits@.subrange(56, all_bits@.len() as int)),
{
    bits_to_bytes(&all_bits[ecc::HEADER_LEN_BITS..all_bits.len()])
}

/// The bits embedded for a payload give the payload back: their header
/// decodes to the payload's length (even with one flipped bit in each of its
/// codewords), so the total read is exactly those bits whenever they fit, and
/// the bits behind the header pack back into the payload.
pub proof fn lemma_payload_bits_round_trip(payload: Seq<u8>, header: Seq<bool>, capacity: nat)
    requires
        payload.len() <= u32::MAX,
        56 + 8 * payload.len() <= capacity,
        56 + 8 * payload.len() <= usize::MAX,
        header.len() == 56,
        forall|k: int| 0 <= k < 8 ==> within_one_flip(#[trigger] chunk(encoded_length(payload.len() as u32), k, 7), chunk(header, k, 7)),
    ensures
        payload_bit_seq(payload).len() == 56 + 8 * payload.len(),
        total_bits_spec(header, capacity) == Ok::<usize, Seq<char>>((56 + 8 * payload.len()) as usize),
        bytes_of_bits(payload_bit_seq(payload).subrange(56, 56 + 8 * payload.len() as int)) == payload,
{
    let bits = payload_bit_seq(payload);
    lemma_header_survives_one_flip_per_codeword(payload.len() as u32, header);
    assert(bits.subrange(56, 56 + 8 * payload.len() as int) =~= bits_of_bytes(payload));
    lemma_bytes_bits_round_trip(payload);
}

} // verus!
