//! The payload container: `STEG3` (version, storage kind, MIME type, chunk
//! index, algorithm id, original length) or the older `STEG2` (storage kind,
//! original length), followed by the stored bytes, raw or zlib-compressed.
use vstd::prelude::*;
use vstd::string::{StringExecFns, StringSliceAdditionalSpecFns};
use vstd::utf8::{valid_utf8, decode_utf8};
use vstd::slice::slice_to_vec;

use std::io::{Read, Write};

use crate::text::{bytes_view, decimal, push_decimal, string_from_utf8};
use super::binary::{put_u16_be, put_u32_be, read_u16_be, read_u32_be, u16_be_bytes, u32_be_bytes, be_u16_at, be_u32_at, lemma_u16_round_trip, lemma_u32_round_trip};
use super::{magic, has_magic, put_magic, starts_with_magic, RICH_TAG, WRAPPED_TAG, STORAGE_RAW, STORAGE_ZLIB, PAYLOAD_VERSION, ALGORITHM_DCT_LUMA, FIRST_CHUNK_INDEX};

verus! {

/// What zlib compression at the default level (flate2's `ZlibEncoder`)
/// produces from `data`: the compressed stream, or the message of the
/// error it reported.
pub uninterp spec fn zlib_compressed(data: Seq<u8>) -> Result<Seq<u8>, Seq<char>>;

/// What zlib decompression (flate2's `ZlibDecoder`, read to the end)
/// produces from `data`: the decompressed bytes, or the message of the
/// error it reported.
pub uninterp spec fn zlib_decompressed(data: Seq<u8>) -> Result<Seq<u8>, Seq<char>>;

/// Compresses `input` with flate2's `ZlibEncoder` at the default level,
/// writing into a `Vec`. Claimed: the result is `zlib_compressed(input)`; it
/// is `Ok`, since writing into a `Vec` cannot fail and the default-level
/// deflate stream reports no error on well-formed calls; and the compressed
/// stream decompresses to `input` (zlib is lossless).
#[verifier::external_body]
fn compress_bytes(input: &[u8]) -> (compressed: Result<Vec<u8>, String>)
    ensures
        bytes_view(compressed) == zlib_compressed(input@),
        match compressed {
            Ok(c) => zlib_decompressed(c@) == Ok::<Seq<u8>, Seq<char>>(input@),
            Err(_) => false,
        },
{
    let mut encoder = flate2::write::ZlibEncoder::new(Vec::new(), flate2::Compression::default());
    encoder.write_all(input).map_err(|e| format!("Compression failed: {e}"))?;
    encoder.finish().map_err(|e| format!("Compression failed: {e}"))
}

/// Decompresses a zlib stream with flate2's `ZlibDecoder`, reading to the
/// end. Claimed: the result is `zlib_decompressed(input)`.
#[verifier::external_body]
fn decompress_bytes(input: &[u8]) -> (decompressed: Result<Vec<u8>, String>)
    ensures
        bytes_view(decompressed) == zlib_decompressed(input@),
{
    let mut decoder = flate2::read::ZlibDecoder::new(input);
    let mut out = Vec::new();
    decoder.read_to_end(&mut out).map_err(|e| format!("Decompression failed: {e}"))?;
    Ok(out)
}

/// The storage kind and stored bytes: the compressed stream when it is
/// shorter than the inner bytes, else the inner bytes themselves.
pub open spec fn stored_form(inner: Seq<u8>, compressed: Seq<u8>) -> (u8, Seq<u8>) {
    if compressed.len() < inner.len() {
        (STORAGE_ZLIB, compressed)
    } else {
        (STORAGE_RAW, inner)
    }
}

/// The `STEG3` container for `inner` with MIME type bytes `mime`, given the
/// compressed form of `inner`.
pub open spec fn container_bytes(inner: Seq<u8>, mime: Seq<u8>, compressed: Seq<u8>) -> Result<
    Seq<u8>,
    Seq<char>,
> {
    if inner.len() > u32::MAX {
        Err("Payload too large (max 4 GiB-1)"@)
    } else if mime.len() > u16::MAX {
        Err("MIME type too long"@)
    } else {
        let (kind, stored) = stored_form(inner, compressed);
        Ok(magic(RICH_TAG) + seq![PAYLOAD_VERSION, kind] + u16_be_bytes(mime.len() as u16) + mime
            + u32_be_bytes(FIRST_CHUNK_INDEX) + u16_be_bytes(ALGORITHM_DCT_LUMA) + u32_be_bytes(
            inner.len() as u32,
        ) + stored)
    }
}

/// What `wrap_payload` gives for `inner` and the MIME type bytes `mime`.
pub open spec fn wrap_spec(inner: Seq<u8>, mime: Seq<u8>) -> Result<Seq<u8>, Seq<char>> {
    match zlib_compressed(inner) {
        Err(e) => Err(e),
        Ok(c) => container_bytes(inner, mime, c),
    }
}

/// The message for a body that decoded to the wrong length.
pub open spec fn length_mismatch_msg(expected: nat, got: nat) -> Seq<char> {
    "Invalid payload container: expected "@ + decimal(expected) + " bytes after decode, got "@
        + decimal(got)
}

/// The body decoded by its storage kind, checked against the recorded
/// original length.
pub open spec fn decode_body_spec(storage_kind: u8, original_len: nat, body: Seq<u8>) -> Result<
    Seq<u8>,
    Seq<char>,
> {
    let decoded = if storage_kind == STORAGE_RAW {
        Ok(body)
    } else if storage_kind == STORAGE_ZLIB {
        zlib_decompressed(body)
    } else {
        Err("Invalid payload container: unknown storage kind"@)
    };
    match decoded {
        Err(e) => Err(e),
        Ok(inner) => if inner.len() != original_len {
            Err(length_mismatch_msg(original_len, inner.len()))
        } else {
            Ok(inner)
        },
    }
}

/// Unwrapping of a `STEG2` container.
pub open spec fn unwrap_v2_spec(raw: Seq<u8>) -> Result<Seq<u8>, Seq<char>> {
    if raw.len() < 10 {
        Err("Invalid payload container: too short"@)
    } else if raw.subrange(0, 5) != magic(WRAPPED_TAG) {
        Err("Invalid payload container: bad magic"@)
    } else {
        decode_body_spec(raw[5], be_u32_at(raw, 6) as nat, raw.subrange(10, raw.len() as int))
    }
}

/// Unwrapping of a `STEG3` container (its magic is not checked again).
pub open spec fn unwrap_rich_spec(raw: Seq<u8>) -> Result<Seq<u8>, Seq<char>> {
    if raw.len() < 18 {
        Err("Invalid payload container: too short"@)
    } else if raw[5] != PAYLOAD_VERSION {
        Err("Invalid payload container: unsupported version"@)
    } else {
        let ml = be_u16_at(raw, 7) as int;
        if raw.len() < 9 + ml + 10 {
            Err("Invalid payload container: truncated metadata"@)
        } else if !valid_utf8(raw.subrange(9, 9 + ml)) {
            Err("Invalid payload container: MIME type is not UTF-8"@)
        } else {
            let o = 9 + ml;
            if be_u32_at(raw, o) != FIRST_CHUNK_INDEX || be_u16_at(raw, o + 4) != ALGORITHM_DCT_LUMA {
                Err("Invalid payload container: unsupported metadata"@)
            } else if decode_utf8(raw.subrange(9, 9 + ml)).len() == 0 {
                Err("Invalid payload container: empty MIME type"@)
            } else {
                decode_body_spec(raw[6], be_u32_at(raw, o + 6) as nat, raw.subrange(o + 10, raw.len() as int))
            }
        }
    }
}

/// Unwrapping of either container version.
pub open spec fn unwrap_spec(raw: Seq<u8>) -> Result<Seq<u8>, Seq<char>> {
    if has_magic(raw, RICH_TAG) {
        unwrap_rich_spec(raw)
    } else {
        unwrap_v2_spec(raw)
    }
}

/// The fields read from a container's header.
struct ContainerHeader {
    storage_kind: u8,
    mime_type: String,
    chunk_index: u32,
    algorithm_id: u16,
    original_len: usize,
}

/// Builds the `STEG3` container for `inner` from the compressed form of
/// `inner` (kept only when it is shorter).
pub fn assemble_container(inner: &[u8], mime_type: &str, compressed: Vec<u8>) -> (r: Result<Vec<u8>, String>)
    ensures
        bytes_view(r) == container_bytes(inner@, mime_type.spec_bytes(), compressed@),
{
    if inner.len() > 0xffff_ffff {
        return Err(String::from_str("Payload too large (max 4 GiB-1)"));
    }
    let mime = mime_type.as_bytes();
    if mime.len() > 0xffff {
        return Err(String::from_str("MIME type too long"));
    }
    let (storage_kind, stored_bytes) = if compressed.len() < inner.len() {
        (STORAGE_ZLIB, compressed)
    } else {
        (STORAGE_RAW, slice_to_vec(inner))
    };
    let mut out: Vec<u8> = Vec::new();
    put_magic(&mut out, RICH_TAG);
    out.push(PAYLOAD_VERSION);
    out.push(storage_kind);
    put_u16_be(&mut out, mime.len() as u16);
    out.extend_from_slice(mime);
    put_u32_be(&mut out, FIRST_CHUNK_INDEX);
    put_u16_be(&mut out, ALGORITHM_DCT_LUMA);
    put_u32_be(&mut out, inner.len() as u32);
    out.extend_from_slice(stored_bytes.as_slice());
    assert(out@ =~= magic(RICH_TAG) + seq![PAYLOAD_VERSION, storage_kind] + u16_be_bytes(mime@.len() as u16)
        + mime@ + u32_be_bytes(FIRST_CHUNK_INDEX) + u16_be_bytes(ALGORITHM_DCT_LUMA) + u32_be_bytes(
        inner@.len() as u32,
    ) + stored_bytes@);
    Ok(out)
}

/// Wraps `inner` in a `STEG3` container tagged with `mime_type`, storing it
/// zlib-compressed when that is shorter. It succeeds exactly when `inner`
/// fits a 32-bit length and the MIME type a 16-bit one; what it returns
/// unwraps to `inner` again when the MIME type is not empty.
pub fn wrap_payload(inner: &[u8], mime_type: &str) -> (r: Result<Vec<u8>, String>)
    ensures
        bytes_view(r) == wrap_spec(inner@, mime_type.spec_bytes()),
        r is Ok <==> inner@.len() <= u32::MAX && mime_type.spec_bytes().len() <= u16::MAX,
        mime_type@.len() > 0 ==> (r matches Ok(out) ==> unwrap_spec(out@) == Ok::<Seq<u8>, Seq<char>>(inner@)),
{
    let compressed = match compress_bytes(inner) {
        Ok(c) => c,
        Err(e) => return Err(e),
    };
    let ghost c = compressed@;
    let r = assemble_container(inner, mime_type, compressed);
    proof {
        if mime_type@.len() > 0 {
            lemma_container_round_trip(inner@, mime_type@, c);
        }
    }
    r
}

/// A wrapped payload records its metadata: the `STEG3` magic, the format
/// version, the MIME type's length at offset 7 and its bytes right after,
/// and the inner length after the chunk index and algorithm id.
pub proof fn lemma_wrapped_metadata(inner: Seq<u8>, mime: Seq<u8>)
    ensures
        wrap_spec(inner, mime) matches Ok(out) ==> {
            &&& has_magic(out, RICH_TAG)
            &&& out[5] == PAYLOAD_VERSION
            &&& 19 + mime.len() <= out.len()
            &&& be_u16_at(out, 7) == mime.len()
            &&& out.subrange(9, 9 + mime.len() as int) == mime
            &&& be_u32_at(out, 9 + mime.len() as int + 6) == inner.len()
        },
{
    if let Ok(out) = wrap_spec(inner, mime) {
        let c = zlib_compressed(inner)->Ok_0;
        assert(container_bytes(inner, mime, c) == Ok::<Seq<u8>, Seq<char>>(out));
        let ml = mime.len() as u16;
        assert(out.subrange(0, 5) =~= magic(RICH_TAG));
        assert(out.subrange(7, 9) =~= u16_be_bytes(ml));
        lemma_u16_round_trip(ml, out, 7);
        assert(out.subrange(9, 9 + mime.len() as int) =~= mime);
        let o: int = 9 + mime.len() as int;
        assert(out.subrange(o + 6, o + 10) =~= u32_be_bytes(inner.len() as u32));
        lemma_u32_round_trip(inner.len() as u32, out, o + 6);
    }
}

/// A `STEG3` container built from a compressed form that decompresses to
/// the inner bytes (or is not used because it is not shorter) unwraps to
/// the inner bytes, when the MIME type is not empty.
pub proof fn lemma_container_round_trip(inner: Seq<u8>, mime: Seq<char>, compressed: Seq<u8>)
    requires
        mime.len() > 0,
        compressed.len() < inner.len() ==> zlib_decompressed(compressed) == Ok::<Seq<u8>, Seq<char>>(inner),
    ensures
        container_bytes(inner, vstd::utf8::encode_utf8(mime), compressed) matches Ok(out) ==> unwrap_spec(out)
            == Ok::<Seq<u8>, Seq<char>>(inner),
{
    broadcast use {vstd::utf8::encode_utf8_valid_utf8, vstd::utf8::encode_utf8_decode_utf8};
    let mb = vstd::utf8::encode_utf8(mime);
    if let Ok(out) = container_bytes(inner, mb, compressed) {
        let (kind, stored) = stored_form(inner, compressed);
        let ml = mb.len() as u16;
        assert(out.subrange(0, 5) =~= magic(RICH_TAG));
        assert(has_magic(out, RICH_TAG));
        assert(out.subrange(7, 9) =~= u16_be_bytes(ml));
        lemma_u16_round_trip(ml, out, 7);
        assert(out.subrange(9, 9 + mb.len() as int) =~= mb);
        let o: int = 9 + mb.len() as int;
        assert(out.subrange(o, o + 4) =~= u32_be_bytes(FIRST_CHUNK_INDEX));
        lemma_u32_round_trip(FIRST_CHUNK_INDEX, out, o);
        assert(out.subrange(o + 4, o + 6) =~= u16_be_bytes(ALGORITHM_DCT_LUMA));
        lemma_u16_round_trip(ALGORITHM_DCT_LUMA, out, o + 4);
        assert(out.subrange(o + 6, o + 10) =~= u32_be_bytes(inner.len() as u32));
        lemma_u32_round_trip(inner.len() as u32, out, o + 6);
        assert(out.subrange(o + 10, out.len() as int) =~= stored);
        if mb.len() == 0 {
            assert(decode_utf8(mb) == mime);
        }
    }
}

/// Unwraps either container version back to the inner bytes.
pub fn unwrap_payload(raw: &[u8]) -> (r: Result<Vec<u8>, String>)
    ensures
        bytes_view(r) == unwrap_spec(raw@),
{
    if starts_with_magic(raw, RICH_TAG) {
        return unwrap_rich_payload(raw);
    }
    unwrap_v2_payload(raw)
}

/// Unwraps a `STEG2` container.
fn unwrap_v2_payload(raw: &[u8]) -> (r: Result<Vec<u8>, String>)
    ensures
        bytes_view(r) == unwrap_v2_spec(raw@),
{
    if raw.len() < 10 {
        return Err(String::from_str("Invalid payload container: too short"));
    }
    if !starts_with_magic(raw, WRAPPED_TAG) {
        return Err(String::from_str("Invalid payload container: bad magic"));
    }
    let mut offset: usize = 5;
    offset += 1;
    let storage_kind = raw[offset - 1];
    let original_len = match read_u32_be(raw, &mut offset) {
        Ok(v) => v as usize,
        Err(e) => return Err(e),
    };
    let header = ContainerHeader {
        storage_kind,
        mime_type: String::new(),
        chunk_index: 0,
        algorithm_id: 0,
        original_len,
    };
    let body = &raw[offset..raw.len()];
    decode_body(&header, body)
}

/// Unwraps a `STEG3` container (its magic is not checked again).
fn unwrap_rich_payload(raw: &[u8]) -> (r: Result<Vec<u8>, String>)
    ensures
        bytes_view(r) == unwrap_rich_spec(raw@),
{
    if raw.len() < 18 {
        return Err(String::from_str("Invalid payload container: too short"));
    }
    let mut offset: usize = 5;
    let version = raw[offset];
    offset += 1;
    if version != PAYLOAD_VERSION {
        return Err(String::from_str("Invalid payload container: unsupported version"));
    }
    let storage_kind = raw[offset];
    offset += 1;
    let mime_len = match read_u16_be(raw, &mut offset) {
        Ok(v) => v as usize,
        Err(e) => return Err(e),
    };
    if raw.len() - offset < mime_len + 10 {
        return Err(String::from_str("Invalid payload container: truncated metadata"));
    }
    let mime_type = match string_from_utf8(slice_to_vec(&raw[offset..offset + mime_len])) {
        Some(s) => s,
        None => return Err(String::from_str("Invalid payload container: MIME type is not UTF-8")),
    };
    offset += mime_len;
    let chunk_index = match read_u32_be(raw, &mut offset) {
        Ok(v) => v,
        Err(e) => return Err(e),
    };
    let algorithm_id = match read_u16_be(raw, &mut offset) {
        Ok(v) => v,
        Err(e) => return Err(e),
    };
    let original_len = match read_u32_be(raw, &mut offset) {
        Ok(v) => v as usize,
        Err(e) => return Err(e),
    };
    let header = ContainerHeader { storage_kind, mime_type, chunk_index, algorithm_id, original_len };
    let body = &raw[offset..raw.len()];
    match validate_metadata(&header) {
        Ok(()) => {},
        Err(e) => return Err(e),
    }
    decode_body(&header, body)
}

/// Decodes the stored body by the header's storage kind and checks its
/// length against the header.
fn decode_body(header: &ContainerHeader, body: &[u8]) -> (r: Result<Vec<u8>, String>)
    ensures
        bytes_view(r) == decode_body_spec(header.storage_kind, header.original_len as nat, body@),
{
    let decoded = if header.storage_kind == STORAGE_RAW {
        Ok(slice_to_vec(body))
    } else if header.storage_kind == STORAGE_ZLIB {
        decompress_bytes(body)
    } else {
        Err(String::from_str("Invalid payload container: unknown storage kind"))
    };
    check_decoded_len(decoded, header.original_len)
}

/// Checks a decoded body against the length recorded for it; an error in
/// decoding passes through.
pub fn check_decoded_len(decoded: Result<Vec<u8>, String>, original_len: usize) -> (r: Result<Vec<u8>, String>)
    ensures
        bytes_view(r) == (match bytes_view(decoded) {
            Err(e) => Err(e),
            Ok(inner) => if inner.len() != original_len {
                Err(length_mismatch_msg(original_len as nat, inner.len()))
            } else {
                Ok(inner)
            },
        }),
{
    let inner = match decoded {
        Ok(v) => v,
        Err(e) => return Err(e),
    };
    if inner.len() != original_len {
        let mut msg = String::from_str("Invalid payload container: expected ");
        push_decimal(&mut msg, original_len as u64);
        msg.append(" bytes after decode, got ");
        push_decimal(&mut msg, inner.len() as u64);
        return Err(msg);
    }
    Ok(inner)
}

/// Accepts only the first chunk of the DCT-luma algorithm with a MIME type.
fn validate_metadata(header: &ContainerHeader) -> (r: Result<(), String>)
    ensures
        r is Ok <==> (header.chunk_index == FIRST_CHUNK_INDEX && header.algorithm_id == ALGORITHM_DCT_LUMA
            && header.mime_type@.len() > 0),
        r matches Err(e) ==> e@ == (if header.chunk_index != FIRST_CHUNK_INDEX || header.algorithm_id
            != ALGORITHM_DCT_LUMA {
            "Invalid payload container: unsupported metadata"@
        } else {
            "Invalid payload container: empty MIME type"@
        }),
{
    if header.chunk_index != FIRST_CHUNK_INDEX || header.algorithm_id != ALGORITHM_DCT_LUMA {
        return Err(String::from_str("Invalid payload container: unsupported metadata"));
    }
    if header.mime_type.as_str().is_empty() {
        return Err(String::from_str("Invalid payload container: empty MIME type"));
    }
    Ok(())
}

} // verus!
