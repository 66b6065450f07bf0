//! Which DCT coefficients of which blocks carry bits, and the keyed order
//! in which they are used.
use vstd::prelude::*;
use vstd::string::StringSliceAdditionalSpecFns;

use rand::SeedableRng;
use rand::seq::SliceRandom;
use sha2::Digest;

verus! {

/// A coefficient slot: block index, row and column of the coefficient.
pub type Position = (usize, usize, usize);

/// Slots per block that every block offers.
pub fn bits_per_block() -> (n: usize)
    ensures
        n == 1,
{
    1
}

/// Slots per block that a textured block offers.
pub fn max_bits_per_block() -> (n: usize)
    ensures
        n == 4,
{
    4
}

/// The coefficients used in a block: `(1, 2)`, and `(2, 1)`, `(1, 3)`,
/// `(2, 2)` as well in a textured block.
pub open spec fn coords_spec(textured: bool) -> Seq<(usize, usize)> {
    if textured {
        seq![(1usize, 2usize), (2usize, 1usize), (1usize, 3usize), (2usize, 2usize)]
    } else {
        seq![(1usize, 2usize)]
    }
}

/// The slots of block `b`.
pub open spec fn block_positions_spec(textured: Seq<bool>, b: usize) -> Seq<Position> {
    coords_spec(textured[b as int]).map_values(|rc: (usize, usize)| (b, rc.0, rc.1))
}

/// The slots of the usable blocks, block by block, before shuffling.
pub open spec fn ordered_positions(textured: Seq<bool>, usable: Seq<usize>) -> Seq<Position>
    decreases usable.len(),
{
    if usable.len() == 0 {
        Seq::empty()
    } else {
        ordered_positions(textured, usable.drop_last()) + block_positions_spec(textured, usable.last())
    }
}

/// The number of slots the usable blocks offer.
pub open spec fn capacity_spec(textured: Seq<bool>, usable: Seq<usize>) -> nat {
    ordered_positions(textured, usable).len()
}

/// Every usable block index names a block.
pub open spec fn usable_in_range(textured: Seq<bool>, usable: Seq<usize>) -> bool {
    forall|i: int| 0 <= i < usable.len() ==> (#[trigger] usable[i]) < textured.len()
}

/// SHA-256 of `data` (sha2's `Sha256`).
pub uninterp spec fn sha256(data: Seq<u8>) -> Seq<u8>;

/// The order in which rand's `SliceRandom::shuffle` leaves `items` when it
/// draws from `StdRng::from_seed(seed)`.
pub uninterp spec fn seeded_shuffle(items: Seq<Position>, seed: Seq<u8>) -> Seq<Position>;

/// Hashes `data` with sha2's `Sha256::digest`. Claimed: the digest is
/// `sha256(data)`.
#[verifier::external_body]
fn sha256_digest(data: &[u8]) -> (digest: [u8; 32])
    ensures
        digest@ == sha256(data@),
{
    sha2::Sha256::digest(data).into()
}

/// Shuffles `items` with rand's `SliceRandom::shuffle`, drawing from
/// `StdRng::from_seed(seed)`. Claimed: the order is `seeded_shuffle(items,
/// seed)`, and it is a permutation of `items` (the shuffle only swaps).
#[verifier::external_body]
fn shuffle_with_seed(items: Vec<Position>, seed: [u8; 32]) -> (shuffled: Vec<Position>)
    ensures
        shuffled@ == seeded_shuffle(items@, seed@),
        shuffled@.to_multiset() == items@.to_multiset(),
{
    let mut items = items;
    let mut rng = rand::rngs::StdRng::from_seed(seed);
    items.shuffle(&mut rng);
    items
}

/// The bytes hashed into the shuffle seed: a fixed tag, then the password.
pub open spec fn seed_input(password: &str) -> Seq<u8> {
    "steg-position-seed:v1".spec_bytes() + password.spec_bytes()
}

/// The shuffle seed derived from a password.
pub fn embedding_seed(password: &str) -> (seed: [u8; 32])
    ensures
        seed@ == sha256(seed_input(password)),
{
    let mut data: Vec<u8> = Vec::new();
    data.extend_from_slice("steg-position-seed:v1".as_bytes());
    data.extend_from_slice(password.as_bytes());
    assert(data@ =~= seed_input(password));
    sha256_digest(data.as_slice())
}

/// The keyed order of the slots.
pub open spec fn shuffled_spec(password: &str, textured: Seq<bool>, usable: Seq<usize>) -> Seq<Position> {
    seeded_shuffle(ordered_positions(textured, usable), sha256(seed_input(password)))
}

/// The coefficients used in a block.
pub fn coords_for_block(textured: bool) -> (coords: Vec<(usize, usize)>)
    ensures
        coords@ == coords_spec(textured),
{
    let mut coords: Vec<(usize, usize)> = Vec::new();
    coords.push((1, 2));
    if textured {
        coords.push((2, 1));
        coords.push((1, 3));
        coords.push((2, 2));
    }
    assert(coords@ =~= coords_spec(textured));
    coords
}

/// The slots of one block.
pub fn block_positions(textured: &[bool], block_idx: usize) -> (positions: Vec<Position>)
    requires
        block_idx < textured@.len(),
    ensures
        positions@ == block_positions_spec(textured@, block_idx),
{
    let coords = coords_for_block(textured[block_idx]);
    let mut positions: Vec<Position> = Vec::new();
    let mut i: usize = 0;
    while i < coords.len()
        invariant
            i <= coords@.len(),
            coords@ == coords_spec(textured@[block_idx as int]),
            positions@ == coords@.take(i as int).map_values(|rc: (usize, usize)| (block_idx, rc.0, rc.1)),
        decreases coords@.len() - i,
    {
        let (r, c) = coords[i];
        positions.push((block_idx, r, c));
        i = i + 1;
        assert(positions@ =~= coords@.take(i as int).map_values(|rc: (usize, usize)| (block_idx, rc.0, rc.1)));
    }
    assert(coords@.take(i as int) =~= coords@);
    positions
}

/// The coefficients of a block are pairwise distinct: a flat block offers
/// exactly `(1, 2)`, a textured one exactly `(1, 2)`, `(2, 1)`, `(1, 3)`
/// and `(2, 2)`.
pub proof fn lemma_block_coefficients(textured: bool)
    ensures
        coords_spec(textured).no_duplicates(),
        coords_spec(textured).len() == (if textured { 4int } else { 1int }),
        coords_spec(textured).to_set() == (if textured {
            set![(1usize, 2usize), (2usize, 1usize), (1usize, 3usize), (2usize, 2usize)]
        } else {
            set![(1usize, 2usize)]
        }),
{
    let c = coords_spec(textured);
    let expected = if textured {
        set![(1usize, 2usize), (2usize, 1usize), (1usize, 3usize), (2usize, 2usize)]
    } else {
        set![(1usize, 2usize)]
    };
    assert forall|x: (usize, usize)| c.to_set().contains(x) <==> expected.contains(x) by {
        if expected.contains(x) {
            if textured {
                if x == (1usize, 2usize) { assert(c[0] == x); }
                if x == (2usize, 1usize) { assert(c[1] == x); }
                if x == (1usize, 3usize) { assert(c[2] == x); }
                if x == (2usize, 2usize) { assert(c[3] == x); }
            } else {
                assert(c[0] == x);
            }
        }
    }
    assert(c.to_set() =~= expected);
}

/// When no usable block is listed twice, no slot occurs twice among the
/// slots of the usable blocks, and each slot is a coefficient its block
/// offers, in a usable block.
pub proof fn lemma_ordered_positions_distinct(textured: Seq<bool>, usable: Seq<usize>)
    requires
        usable_in_range(textured, usable),
        usable.no_duplicates(),
    ensures
        ordered_positions(textured, usable).no_duplicates(),
        forall|i: int| 0 <= i < ordered_positions(textured, usable).len() ==> {
            let p = #[trigger] ordered_positions(textured, usable)[i];
            usable.contains(p.0) && coords_spec(textured[p.0 as int]).contains((p.1, p.2))
        },
    decreases usable.len(),
{
    if usable.len() > 0 {
        let rest = usable.drop_last();
        let b = usable.last();
        assert(usable_in_range(textured, rest));
        assert(rest.no_duplicates());
        lemma_ordered_positions_distinct(textured, rest);
        let old_p = ordered_positions(textured, rest);
        let c = coords_spec(textured[b as int]);
        let new_p = block_positions_spec(textured, b);
        lemma_block_coefficients(textured[b as int]);
        assert(!rest.contains(b)) by {
            if rest.contains(b) {
                let k = choose|k: int| 0 <= k < rest.len() && rest[k] == b;
                assert(usable[k] == usable[usable.len() - 1]);
            }
        }
        assert(new_p.no_duplicates()) by {
            assert forall|i: int, j: int| 0 <= i < new_p.len() && 0 <= j < new_p.len() && i != j implies new_p[i]
                != new_p[j] by {
                assert(c[i] != c[j]);
            }
        }
        assert forall|i: int, j: int| 0 <= i < old_p.len() && 0 <= j < new_p.len() implies old_p[i] != new_p[j] by {
            assert(rest.contains(old_p[i].0));
        }
        vstd::seq_lib::lemma_no_dup_in_concat(old_p, new_p);
        let all = ordered_positions(textured, usable);
        assert(all == old_p + new_p);
        assert forall|i: int| 0 <= i < all.len() implies {
            let p = #[trigger] all[i];
            usable.contains(p.0) && coords_spec(textured[p.0 as int]).contains((p.1, p.2))
        } by {
            if i < old_p.len() {
                assert(all[i] == old_p[i]);
                let k = choose|k: int| 0 <= k < rest.len() && rest[k] == old_p[i].0;
                assert(usable[k] == rest[k]);
            } else {
                let j = i - old_p.len();
                assert(all[i] == new_p[j]);
                assert(new_p[j] == (b, c[j].0, c[j].1));
                assert(c[j] == (c[j].0, c[j].1));
                assert(usable[usable.len() - 1] == b);
            }
        }
    }
}

/// Number of usable blocks that are textured.
pub open spec fn textured_count(textured: Seq<bool>, usable: Seq<usize>) -> nat
    decreases usable.len(),
{
    if usable.len() == 0 {
        0
    } else {
        textured_count(textured, usable.drop_last()) + (if textured[usable.last() as int] { 1nat } else { 0nat })
    }
}

/// Every usable block offers one slot, and a textured one three more.
pub proof fn lemma_capacity_counts(textured: Seq<bool>, usable: Seq<usize>)
    ensures
        capacity_spec(textured, usable) == usable.len() + 3 * textured_count(textured, usable),
    decreases usable.len(),
{
    if usable.len() > 0 {
        lemma_capacity_counts(textured, usable.drop_last());
    }
}

proof fn lemma_ordered_len_bound(textured: Seq<bool>, usable: Seq<usize>)
    ensures
        ordered_positions(textured, usable).len() <= 4 * usable.len(),
    decreases usable.len(),
{
    if usable.len() > 0 {
        lemma_ordered_len_bound(textured, usable.drop_last());
    }
}

/// The slots of the usable blocks, in block order.
fn ordered_positions_exec(textured: &[bool], usable_block_indices: &[usize]) -> (positions: Vec<Position>)
    requires
        usable_in_range(textured@, usable_block_indices@),
    ensures
        positions@ == ordered_positions(textured@, usable_block_indices@),
{
    let mut positions: Vec<Position> = Vec::new();
    let mut i: usize = 0;
    while i < usable_block_indices.len()
        invariant
            i <= usable_block_indices@.len(),
            usable_in_range(textured@, usable_block_indices@),
            positions@ == ordered_positions(textured@, usable_block_indices@.take(i as int)),
        decreases usable_block_indices@.len() - i,
    {
        let block_idx = usable_block_indices[i];
        let more = block_positions(textured, block_idx);
        let ghost before = positions@;
        let mut j: usize = 0;
        while j < more.len()
            invariant
                j <= more@.len(),
                positions@ == before + more@.take(j as int),
            decreases more@.len() - j,
        {
            positions.push(more[j]);
            j = j + 1;
            assert(positions@ =~= before + more@.take(j as int));
        }
        assert(more@.take(j as int) =~= more@);
        assert(usable_block_indices@.take(i + 1).drop_last() =~= usable_block_indices@.take(i as int));
        assert(positions@ =~= ordered_positions(textured@, usable_block_indices@.take(i + 1)));
        i = i + 1;
    }
    assert(usable_block_indices@.take(i as int) =~= usable_block_indices@);
    positions
}

/// The slots of the usable blocks in the order keyed by the password.
pub fn shuffled_positions(password: &str, textured: &[bool], usable_block_indices: &[usize]) -> (positions: Vec<Position>)
    requires
        usable_in_range(textured@, usable_block_indices@),
    ensures
        positions@ == shuffled_spec(password, textured@, usable_block_indices@),
        positions@.to_multiset() == ordered_positions(textured@, usable_block_indices@).to_multiset(),
        usable_block_indices@.no_duplicates() ==> positions@.no_duplicates(),
{
    let positions = ordered_positions_exec(textured, usable_block_indices);
    let shuffled = shuffle_with_seed(positions, embedding_seed(password));
    proof {
        if usable_block_indices@.no_duplicates() {
            lemma_ordered_positions_distinct(textured@, usable_block_indices@);
            positions@.lemma_multiset_has_no_duplicates();
            shuffled@.lemma_multiset_has_no_duplicates_conv();
        }
    }
    shuffled
}

/// The number of slots the usable blocks offer.
pub fn capacity_bits(textured: &[bool], usable_block_indices: &[usize]) -> (n: usize)
    requires
        usable_in_range(textured@, usable_block_indices@),
        4 * usable_block_indices@.len() <= usize::MAX,
    ensures
        n == capacity_spec(textured@, usable_block_indices@),
{
    let mut total: usize = 0;
    let mut i: usize = 0;
    while i < usable_block_indices.len()
        invariant
            i <= usable_block_indices@.len(),
            4 * usable_block_indices@.len() <= usize::MAX,
            usable_in_range(textured@, usable_block_indices@),
            total == capacity_spec(textured@, usable_block_indices@.take(i as int)),
        decreases usable_block_indices@.len() - i,
    {
        let block_idx = usable_block_indices[i];
        let more = block_positions(textured, block_idx);
        assert(usable_block_indices@.take(i + 1).drop_last() =~= usable_block_indices@.take(i as int));
        proof {
            lemma_ordered_len_bound(textured@, usable_block_indices@.take(i + 1));
        }
        total = total + more.len();
        i = i + 1;
    }
    assert(usable_block_indices@.take(i as int) =~= usable_block_indices@);
    total
}

} // verus!
