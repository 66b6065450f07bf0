use steg::bitstream::{bits_to_bytes, bytes_to_bits};
use steg::image_ops::embeddable_block_indices;
use steg::stego::ecc::{decode_hamming_7_4, decode_length, encode_hamming_7_4, encode_length, payload_bits_required as ecc_payload_bits_required, HEADER_LEN_BITS};
use steg::stego::positions::{block_positions, coords_for_block, embedding_seed, max_bits_per_block, shuffled_positions};
use steg::stego::{
    adaptive_capacity_bits, adaptive_capacity_payload_bytes, bits_per_block, capacity_bits, capacity_payload_bytes,
    collect_bits, payload_bits_required, payload_from_bits, payload_total_bits, plan_embedding, plan_extraction,
    plan_payload_embedding,
};

use sha2::Digest;

#[test]
fn hamming_header_corrects_single_bit_per_codeword() {
    let length = 0x1234_abcdusize;
    let encoded = encode_length(length).unwrap();

    for codeword_start in (0..HEADER_LEN_BITS).step_by(7) {
        let mut damaged = encoded.clone();
        damaged[codeword_start] = !damaged[codeword_start];
        assert_eq!(decode_length(&damaged).unwrap(), length);
    }
}

#[test]
fn hamming_codeword_corrects_any_single_flip() {
    for n in 0u8..16 {
        let nibble = [n & 8 != 0, n & 4 != 0, n & 2 != 0, n & 1 != 0];
        let codeword = encode_hamming_7_4(&nibble);
        assert_eq!(decode_hamming_7_4(&codeword), Ok(nibble));
        for i in 0..7 {
            let mut damaged = codeword;
            damaged[i] = !damaged[i];
            assert_eq!(decode_hamming_7_4(&damaged), Ok(nibble));
        }
    }
    assert_eq!(
        decode_hamming_7_4(&[true; 6]),
        Err("Invalid Hamming codeword length: expected 7, got 6".to_string())
    );
}

#[test]
fn header_survives_one_flip_in_every_codeword_at_once() {
    let length = 0xdead_beefusize;
    let mut damaged = encode_length(length).unwrap();
    for k in 0..8 {
        let i = 7 * k + (k % 7);
        damaged[i] = !damaged[i];
    }
    assert_eq!(decode_length(&damaged).unwrap(), length);
}

#[test]
fn header_length_errors() {
    assert_eq!(
        decode_length(&[false; 10]),
        Err("Invalid header length: expected 56, got 10".to_string())
    );
    assert_eq!(encode_length(0x1_0000_0000usize), Err("Payload too large".to_string()));
    assert_eq!(encode_length(0).unwrap(), vec![false; 56]);
    assert_eq!(ecc_payload_bits_required(10), Some(136));
    assert_eq!(payload_bits_required(usize::MAX / 4), None);
}

#[test]
fn images_bits_round_trip_and_padding() {
    let bytes = b"keyed";
    assert_eq!(bits_to_bytes(&bytes_to_bits(bytes)), bytes.to_vec());
    assert_eq!(bytes_to_bits(&[0b1010_0001]), vec![true, false, true, false, false, false, false, true]);
    assert_eq!(bits_to_bytes(&[true, false, true]), vec![0b1010_0000]);
}

#[test]
fn positions_shuffled_positions_are_keyed_and_stable() {
    let usable_block_indices: Vec<usize> = (0..128).collect();
    let textured = vec![false; usable_block_indices.len()];

    let left = shuffled_positions("alpha", &textured, &usable_block_indices);
    let right = shuffled_positions("alpha", &textured, &usable_block_indices);
    let different = shuffled_positions("beta", &textured, &usable_block_indices);

    assert_eq!(left, right);
    assert_ne!(left, different);
}

#[test]
fn stego_shuffled_positions_are_keyed_and_stable() {
    let usable_block_indices: Vec<usize> = (0..128).collect();
    let textured = vec![false; 128];
    let left = shuffled_positions("alpha", &textured, &usable_block_indices);
    let right = shuffled_positions("alpha", &textured, &usable_block_indices);
    let different = shuffled_positions("beta", &textured, &usable_block_indices);

    assert_eq!(left, right);
    assert_ne!(left, different);
}

fn is_textured(block: &[f32]) -> bool {
    let len = block.len() as f32;
    let mean = block.iter().sum::<f32>() / len;
    let variance = block.iter().map(|v| (v - mean) * (v - mean)).sum::<f32>() / len;
    variance >= 400.0
}

#[test]
fn textured_blocks_get_extra_coefficients() {
    let flat = vec![128.0f32; 64];
    let textured: Vec<f32> = (0..64).map(|i| if (i / 8 + i % 8) % 2 == 0 { 32.0 } else { 224.0 }).collect();

    assert_eq!(coords_for_block(is_textured(&flat)).len(), 1);
    assert_eq!(coords_for_block(is_textured(&textured)).len(), max_bits_per_block());
}

#[test]
fn shuffled_positions_are_a_permutation() {
    let textured = vec![false, true, false, true];
    let usable = vec![0usize, 1, 3];
    let mut shuffled = shuffled_positions("pw", &textured, &usable);
    let mut ordered = Vec::new();
    for &b in &usable {
        ordered.extend(block_positions(&textured, b));
    }
    assert_eq!(ordered.len(), 9);
    assert_ne!(shuffled, ordered);
    shuffled.sort();
    ordered.sort();
    assert_eq!(shuffled, ordered);
}

#[test]
fn embedding_seed_is_sha256_of_tag_and_password() {
    let mut hasher = sha2::Sha256::new();
    hasher.update(b"steg-position-seed:v1");
    hasher.update("pw".as_bytes());
    let expected: [u8; 32] = hasher.finalize().into();
    assert_eq!(embedding_seed("pw"), expected);
}

#[test]
fn capacities() {
    assert_eq!(bits_per_block(), 1);
    assert_eq!(capacity_bits(128), 128);
    assert_eq!(capacity_payload_bytes(128), 9);
    assert_eq!(capacity_payload_bytes(50), 0);
    let textured = vec![false, true];
    assert_eq!(adaptive_capacity_bits(&textured, &[0, 1]), 5);
    assert!(adaptive_capacity_bits(&textured, &[0, 1]) > capacity_bits(2));
    assert_eq!(adaptive_capacity_payload_bytes(&vec![true; 64], &(0..64).collect::<Vec<_>>()), 25);
}

#[test]
fn plans_read_back_the_embedded_bits() {
    let textured = vec![false, true, false, false, true];
    let usable = vec![0usize, 1, 2, 4];
    let bits = vec![true, false, false, true, true, false, true, false, true];
    let assignments = plan_embedding(&textured, &usable, &bits, "k").unwrap();
    let slots = plan_extraction(&textured, &usable, bits.len(), "k").unwrap();
    assert_eq!(assignments.len(), 5);
    assert!(assignments[3].is_empty());
    let mut block_bits = Vec::new();
    for (a, s) in assignments.iter().zip(slots.iter()) {
        assert_eq!(a.len(), s.len());
        let mut vals = Vec::new();
        for (x, y) in a.iter().zip(s.iter()) {
            assert_eq!((x.0, x.1), (y.1, y.2));
            vals.push(x.2);
        }
        block_bits.push(vals);
    }
    assert_eq!(collect_bits(&slots, &block_bits, bits.len()), bits);
}

#[test]
fn plans_refuse_too_many_bits() {
    let textured = vec![false; 4];
    let usable = vec![0usize, 1, 2, 3];
    assert_eq!(
        plan_embedding(&textured, &usable, &[true; 5], "k"),
        Err("Not enough capacity: need 5 bits, have 4 bits".to_string())
    );
    assert_eq!(
        plan_extraction(&textured, &usable, 6, "k"),
        Err("Not enough capacity: need 6 bits, have 4 bits".to_string())
    );
}

#[test]
fn payload_plan_at_and_over_capacity() {
    let textured = vec![false; 128];
    let usable: Vec<usize> = (0..128).collect();
    let payload = vec![0xa5u8; capacity_payload_bytes(usable.len())];
    let plan = plan_payload_embedding(&textured, &usable, &payload, "capacity").unwrap();
    assert_eq!(plan.iter().map(|a| a.len()).sum::<usize>(), 56 + 8 * payload.len());

    let too_big = vec![0xa5u8; capacity_payload_bytes(usable.len()) + 1];
    let err = plan_payload_embedding(&textured, &usable, &too_big, "capacity").unwrap_err();
    assert!(err.contains("Not enough capacity"));
    assert_eq!(err, "Not enough capacity: need 136 bits, have 128 bits");
}

#[test]
fn payload_bits_round_trip_through_plans() {
    let textured = vec![false; 512];
    let usable: Vec<usize> = (0..512).collect();
    let payload = b"keyed randomized embedding";
    let assignments = plan_payload_embedding(&textured, &usable, payload, "correct horse").unwrap();
    let capacity = adaptive_capacity_bits(&textured, &usable);

    let read = |count: usize| {
        let slots = plan_extraction(&textured, &usable, count, "correct horse").unwrap();
        let mut block_bits = Vec::new();
        for (a, s) in assignments.iter().zip(slots.iter()) {
            block_bits.push(a.iter().take(s.len()).map(|x| x.2).collect::<Vec<bool>>());
        }
        collect_bits(&slots, &block_bits, count)
    };
    let header = read(56);
    let total = payload_total_bits(&header, capacity).unwrap();
    assert_eq!(total, 56 + 8 * payload.len());
    assert_eq!(payload_from_bits(&read(total)), payload.to_vec());
}

#[test]
fn payload_total_bits_errors() {
    let header = encode_length(1000).unwrap();
    assert_eq!(
        payload_total_bits(&header, 100),
        Err("Invalid password or corrupted stego image".to_string())
    );
    assert_eq!(payload_total_bits(&header, 8056), Ok(8056));
}

#[test]
fn embeddable_blocks_skip_partial_edges() {
    assert_eq!(embeddable_block_indices(16, 20), vec![0, 1, 3, 4]);
    assert_eq!(embeddable_block_indices(7, 64), Vec::<usize>::new());
    assert_eq!(embeddable_block_indices(8, 8), vec![0]);
}

#[test]
fn cover_capacity_check() {
    assert_eq!(steg::stego::check_cover_capacity(4, 64), Ok(64));
    assert_eq!(
        steg::stego::check_cover_capacity(5, 64),
        Err("Payload too large for cover image: need 72 bits, have 64 bits".to_string())
    );
}
