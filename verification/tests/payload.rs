use steg::payload::binary::put_u32_be;
use steg::payload::container::{assemble_container, check_decoded_len, unwrap_payload, wrap_payload};
use steg::payload::raw::{decode_legacy_payload, encode_file_raw, encode_text_raw};
use steg::payload::{decode_payload, encode_file, encode_text, mime_for_name, Payload, STORAGE_RAW, STORAGE_ZLIB};

const RICH_MAGIC: &[u8; 5] = b"STEG3";
const WRAPPED_MAGIC: &[u8; 5] = b"STEG2";

#[test]
fn mod_wrapped_text_round_trip() {
    let packed = encode_text("hello hello hello hello").unwrap();
    assert!(packed.starts_with(RICH_MAGIC));
    let decoded = decode_payload(&packed).unwrap();
    assert_eq!(decoded, Payload::Text("hello hello hello hello".to_string()));
}

#[test]
fn mod_legacy_payload_still_decodes() {
    let raw = encode_text_raw("legacy").unwrap();
    let decoded = decode_payload(&raw).unwrap();
    assert_eq!(decoded, Payload::Text("legacy".to_string()));
}

#[test]
fn steg2_wrapped_payload_still_decodes() {
    let inner = encode_text_raw("wrapped legacy").unwrap();
    let mut packed = Vec::new();
    packed.extend_from_slice(WRAPPED_MAGIC);
    packed.push(STORAGE_RAW);
    put_u32_be(&mut packed, inner.len() as u32);
    packed.extend_from_slice(&inner);

    let decoded = decode_payload(&packed).unwrap();
    assert_eq!(decoded, Payload::Text("wrapped legacy".to_string()));
}

#[test]
fn payload_wrapped_text_round_trip() {
    let packed = encode_text("hello hello hello hello").unwrap();
    let decoded = decode_payload(&packed).unwrap();
    assert_eq!(decoded, Payload::Text("hello hello hello hello".to_string()));
}

#[test]
fn payload_legacy_payload_still_decodes() {
    let raw = encode_text_raw("legacy").unwrap();
    let decoded = decode_payload(&raw).unwrap();
    assert_eq!(decoded, Payload::Text("legacy".to_string()));
}

#[test]
fn file_payload_round_trip() {
    let bytes: Vec<u8> = (0..=255u8).collect();
    let packed = encode_file("Photo.JPEG", &bytes).unwrap();
    assert_eq!(
        decode_payload(&packed).unwrap(),
        Payload::File { name: "Photo.JPEG".to_string(), bytes }
    );
}

#[test]
fn text_record_layout() {
    assert_eq!(encode_text_raw("hi").unwrap(), b"STEG1\x01\x00\x00\x00\x02hi".to_vec());
    assert_eq!(
        encode_file_raw("a.txt", b"xyz").unwrap(),
        b"STEG1\x02\x00\x05a.txt\x00\x00\x00\x03xyz".to_vec()
    );
}

#[test]
fn repetitive_text_is_stored_compressed() {
    let text = "abc".repeat(200);
    let packed = encode_text(&text).unwrap();
    assert_eq!(packed[6], STORAGE_ZLIB);
    assert!(packed.len() < encode_text_raw(&text).unwrap().len());
    assert_eq!(decode_payload(&packed).unwrap(), Payload::Text(text));
}

#[test]
fn short_text_is_stored_raw() {
    let packed = encode_text("x").unwrap();
    assert_eq!(packed[6], STORAGE_RAW);
    let raw = encode_text_raw("x").unwrap();
    assert!(packed.ends_with(&raw));
}

#[test]
fn container_layout() {
    let out = assemble_container(b"abcd", "m/t", vec![9, 9, 9, 9, 9]).unwrap();
    assert_eq!(
        out,
        b"STEG3\x03\x00\x00\x03m/t\x00\x00\x00\x00\x00\x01\x00\x00\x00\x04abcd".to_vec()
    );
    let out = assemble_container(b"abcd", "m/t", vec![7, 7]).unwrap();
    assert_eq!(out[6], STORAGE_ZLIB);
    assert!(out.ends_with(&[0, 0, 0, 4, 7, 7]));
}

#[test]
fn empty_mime_is_refused_on_unwrap() {
    let out = wrap_payload(b"abcd", "").unwrap();
    assert_eq!(
        unwrap_payload(&out),
        Err("Invalid payload container: empty MIME type".to_string())
    );
}

#[test]
fn legacy_decode_errors() {
    assert_eq!(decode_legacy_payload(b"STEG1"), Err("Invalid payload: too short".to_string()));
    assert_eq!(decode_legacy_payload(b"STEGX\x01"), Err("Invalid payload: bad magic".to_string()));
    assert_eq!(decode_legacy_payload(b"STEG1\x07"), Err("Invalid payload: unknown payload kind".to_string()));
    assert_eq!(decode_legacy_payload(b"STEG1\x01\x00\x00"), Err("Invalid payload: truncated u32".to_string()));
    assert_eq!(
        decode_legacy_payload(b"STEG1\x01\x00\x00\x00\x05abc"),
        Err("Invalid payload: truncated text".to_string())
    );
    assert_eq!(
        decode_legacy_payload(b"STEG1\x01\x00\x00\x00\x01\xff"),
        Err("Invalid payload: text is not UTF-8".to_string())
    );
    assert_eq!(decode_legacy_payload(b"STEG1\x02\x00"), Err("Invalid payload: truncated u16".to_string()));
    assert_eq!(
        decode_legacy_payload(b"STEG1\x02\x00\x09ab"),
        Err("Invalid payload: truncated file name".to_string())
    );
    assert_eq!(
        decode_legacy_payload(b"STEG1\x02\x00\x01\xc3"),
        Err("Invalid payload: file name is not UTF-8".to_string())
    );
    assert_eq!(
        decode_legacy_payload(b"STEG1\x02\x00\x01a\x00\x00"),
        Err("Invalid payload: truncated u32".to_string())
    );
    assert_eq!(
        decode_legacy_payload(b"STEG1\x02\x00\x01a\x00\x00\x00\x04xy"),
        Err("Invalid payload: truncated file bytes".to_string())
    );
    assert_eq!(
        decode_legacy_payload(b"STEG1\x02\x00\x01a\x00\x00\x00\x02xyz"),
        Ok(Payload::File { name: "a".to_string(), bytes: b"xy".to_vec() })
    );
}

#[test]
fn container_decode_errors() {
    assert_eq!(unwrap_payload(b"STEG2\x00\x00\x00"), Err("Invalid payload container: too short".to_string()));
    assert_eq!(
        unwrap_payload(b"STEGX\x00\x00\x00\x00\x00"),
        Err("Invalid payload container: bad magic".to_string())
    );
    assert_eq!(
        unwrap_payload(b"STEG2\x05\x00\x00\x00\x00"),
        Err("Invalid payload container: unknown storage kind".to_string())
    );
    assert_eq!(
        unwrap_payload(b"STEG2\x00\x00\x00\x00\x03ab"),
        Err("Invalid payload container: expected 3 bytes after decode, got 2".to_string())
    );
    assert_eq!(unwrap_payload(b"STEG2\x00\x00\x00\x00\x02ab"), Ok(b"ab".to_vec()));
    assert!(unwrap_payload(b"STEG2\x01\x00\x00\x00\x02ab").unwrap_err().starts_with("Decompression failed"));
    assert_eq!(unwrap_payload(b"STEG3\x03"), Err("Invalid payload container: too short".to_string()));
    let good = b"STEG3\x03\x00\x00\x01m\x00\x00\x00\x00\x00\x01\x00\x00\x00\x01z";
    assert_eq!(unwrap_payload(good), Ok(b"z".to_vec()));
    let mut bad_version = good.to_vec();
    bad_version[5] = 4;
    assert_eq!(
        unwrap_payload(&bad_version),
        Err("Invalid payload container: unsupported version".to_string())
    );
    let mut long_mime = good.to_vec();
    long_mime[8] = 9;
    assert_eq!(
        unwrap_payload(&long_mime),
        Err("Invalid payload container: truncated metadata".to_string())
    );
    let mut bad_mime = good.to_vec();
    bad_mime[9] = 0xff;
    assert_eq!(
        unwrap_payload(&bad_mime),
        Err("Invalid payload container: MIME type is not UTF-8".to_string())
    );
    let mut bad_chunk = good.to_vec();
    bad_chunk[13] = 1;
    assert_eq!(
        unwrap_payload(&bad_chunk),
        Err("Invalid payload container: unsupported metadata".to_string())
    );
}

#[test]
fn check_decoded_len_passes_errors_through() {
    assert_eq!(check_decoded_len(Err("boom".to_string()), 3), Err("boom".to_string()));
    assert_eq!(check_decoded_len(Ok(vec![1, 2, 3]), 3), Ok(vec![1, 2, 3]));
    assert_eq!(
        check_decoded_len(Ok(vec![1]), 12),
        Err("Invalid payload container: expected 12 bytes after decode, got 1".to_string())
    );
}

#[test]
fn mime_types_by_extension() {
    assert_eq!(mime_for_name("notes.TXT"), "text/plain");
    assert_eq!(mime_for_name("paper.pdf"), "application/pdf");
    assert_eq!(mime_for_name("a.b.png"), "image/png");
    assert_eq!(mime_for_name("cat.Jpg"), "image/jpeg");
    assert_eq!(mime_for_name("cat.jpeg"), "image/jpeg");
    assert_eq!(mime_for_name("song.wav"), "audio/wav");
    assert_eq!(mime_for_name("archive.tar.gz"), "application/octet-stream");
    assert_eq!(mime_for_name("README"), "application/octet-stream");
    assert_eq!(mime_for_name("trailing."), "application/octet-stream");
    assert_eq!(mime_for_name("ünïcødé.png"), "image/png");
}

#[test]
fn file_name_too_long_is_refused() {
    let name = "n".repeat(70_000);
    assert_eq!(encode_file_raw(&name, b""), Err("File name too long (max 65535)".to_string()));
}
