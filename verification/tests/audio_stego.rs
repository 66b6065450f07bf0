use steg::audio::embed::{embed, max_capacity, validate_spec, PcmSpec, SampleFormat};
use steg::audio::error::StegoError;
use steg::audio::extract::{extract_payload, message_from_bytes, read_bits};
use steg::audio::header::{bits_to_bytes, bytes_to_bits, pack, payload_len_from_header, unpack};

fn make_pcm(size: usize) -> Vec<i16> {
    vec![0xAB; size]
}

#[test]
fn test_embed_succeeds_with_sufficient_pcm() {
    let mut pcm = make_pcm(44_100 * 2);

    assert!(embed(&mut pcm, b"hello world").is_ok());
}

#[test]
fn test_embed_fails_when_payload_too_large() {
    let mut pcm = make_pcm(200);
    let big_payload = vec![0u8; 10_000];

    assert!(embed(&mut pcm, &big_payload).is_err());
}

#[test]
fn test_max_capacity_is_nonzero_for_reasonable_pcm() {
    assert!(max_capacity(44_100 * 2) > 0);
}

#[test]
fn test_max_capacity_zero_for_tiny_pcm() {
    assert_eq!(max_capacity(10), 0);
}

#[test]
fn packs_and_unpacks_payload() {
    let payload = b"hello wav";
    let packed = pack(payload).unwrap();

    assert_eq!(unpack(&packed).unwrap(), payload);
}

#[test]
fn bits_round_trip_to_bytes() {
    let bytes = b"abc";
    let bits: Vec<bool> = bytes_to_bits(bytes);

    assert_eq!(bits_to_bytes(&bits), bytes);
}

#[test]
fn audio_samples_round_trip_payload() {
    let mut pcm: Vec<i16> = (0..4096).map(|i| (i % 256) as i16).collect();
    embed(&mut pcm, "hidden in wav".as_bytes()).unwrap();
    let bytes = extract_payload(&pcm).unwrap();
    assert_eq!(message_from_bytes(bytes).unwrap(), "hidden in wav");
}

#[test]
fn audio_embed_changes_only_lowest_bits_of_leading_samples() {
    let original: Vec<i16> = vec![0x1234; 200];
    let mut pcm = original.clone();
    embed(&mut pcm, b"ab").unwrap();
    // header 9 bytes + 2 payload bytes = 88 bits
    for i in 0..200 {
        assert_eq!(pcm[i] & !1, original[i] & !1);
        if i >= 88 {
            assert_eq!(pcm[i], original[i]);
        }
    }
    // the first header byte is 'A' = 0b0100_0001
    let lsbs: Vec<i16> = pcm[..8].iter().map(|s| s & 1).collect();
    assert_eq!(lsbs, vec![0, 1, 0, 0, 0, 0, 0, 1]);
}

#[test]
fn audio_embed_error_reports_needed_and_available() {
    let mut pcm = make_pcm(200);
    let before = pcm.clone();
    let err = embed(&mut pcm, &[0u8; 20]).unwrap_err();
    assert_eq!(err, StegoError::PayloadTooLarge { needed: (9 + 20) * 8, available: 200 });
    assert_eq!(pcm, before);
}

#[test]
fn audio_max_capacity_exact_values() {
    assert_eq!(max_capacity(0), 0);
    assert_eq!(max_capacity(72), 0);
    assert_eq!(max_capacity(80), 1);
    assert_eq!(max_capacity(44_100 * 2), 44_100 * 2 / 8 - 9);
}

#[test]
fn audio_header_errors() {
    assert_eq!(unpack(b"ASTG\x01\x00\x00\x00"), Err(StegoError::NoHeaderFound));
    assert_eq!(unpack(b"ASTX\x01\x00\x00\x00\x00"), Err(StegoError::NoHeaderFound));
    assert_eq!(unpack(b"ASTG\x02\x00\x00\x00\x00"), Err(StegoError::NoHeaderFound));
    assert_eq!(unpack(b"ASTG\x01\x00\x00\x00\x05abc"), Err(StegoError::NoHeaderFound));
    assert_eq!(unpack(b"ASTG\x01\x00\x00\x00\x02abc"), Ok(&b"ab"[..]));
    assert_eq!(payload_len_from_header(b"ASTG\x01\x00\x00\x01\x02"), Ok(258));
    assert_eq!(payload_len_from_header(b"ASTG\x01\x00\x00\x01\x02\x00"), Err(StegoError::NoHeaderFound));
}

#[test]
fn audio_partial_chunk_packs_low_bits() {
    assert_eq!(bits_to_bytes(&[true, false, true]), vec![5u8]);
    assert_eq!(bits_to_bytes(&[true, false, false, false, false, false, false, true, true]), vec![129u8, 1u8]);
}

#[test]
fn audio_read_bits_needs_enough_samples() {
    let samples = [1i16, 2, 3];
    assert_eq!(read_bits(&samples, 2), Ok(vec![true, false]));
    assert_eq!(read_bits(&samples, 4), Err(StegoError::PayloadTooLarge { needed: 4, available: 3 }));
}

#[test]
fn audio_extract_without_header_fails() {
    let samples = vec![0i16; 200];
    assert_eq!(extract_payload(&samples), Err(StegoError::NoHeaderFound));
    assert_eq!(
        extract_payload(&samples[..10]),
        Err(StegoError::PayloadTooLarge { needed: 72, available: 10 })
    );
}

#[test]
fn audio_invalid_utf8_message() {
    assert_eq!(message_from_bytes(vec![0xff, 0xfe]), Err(StegoError::InvalidUtf8(vec![0xff, 0xfe])));
}

#[test]
fn audio_validate_spec_messages() {
    let ok = PcmSpec { channels: 1, sample_rate: 44_100, bits_per_sample: 16, sample_format: SampleFormat::Int };
    assert_eq!(validate_spec(ok), Ok(()));
    let float = PcmSpec { sample_format: SampleFormat::Float, bits_per_sample: 32, ..ok };
    assert_eq!(
        validate_spec(float),
        Err(StegoError::UnsupportedFormat("expected 16-bit PCM, got Float with 32 bits per sample".to_string()))
    );
    let eight = PcmSpec { bits_per_sample: 8, ..ok };
    assert_eq!(
        validate_spec(eight),
        Err(StegoError::UnsupportedFormat("expected 16-bit PCM, got Int with 8 bits per sample".to_string()))
    );
}
