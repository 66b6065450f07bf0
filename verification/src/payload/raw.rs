//! The bare payload record: `STEG1`, a kind byte, then the text or the
//! file name and bytes, each behind a big-endian length.
use vstd::prelude::*;
use vstd::string::{StringExecFns, StringSliceAdditionalSpecFns};
use vstd::utf8::{valid_utf8, decode_utf8, encode_utf8};
use vstd::slice::slice_to_vec;

use crate::text::{bytes_view, string_from_utf8};
use super::binary::{put_u16_be, put_u32_be, read_u16_be, read_u32_be, u16_be_bytes, u32_be_bytes, be_u16_at, be_u32_at, lemma_u16_round_trip, lemma_u32_round_trip};
use super::{magic, put_magic, Payload, PayloadView, payload_result_view, LEGACY_TAG, KIND_TEXT, KIND_FILE};

verus! {

broadcast use {vstd::utf8::encode_utf8_valid_utf8, vstd::utf8::encode_utf8_decode_utf8};

/// The record for a text whose UTF-8 bytes are `tb`.
pub open spec fn text_record(tb: Seq<u8>) -> Result<Seq<u8>, Seq<char>> {
    if tb.len() > u32::MAX {
        Err("Text too large (max 4 GiB-1)"@)
    } else {
        Ok(magic(LEGACY_TAG) + seq![KIND_TEXT] + u32_be_bytes(tb.len() as u32) + tb)
    }
}

/// The record for a file named by the UTF-8 bytes `nb` with contents `fb`.
pub open spec fn file_record(nb: Seq<u8>, fb: Seq<u8>) -> Result<Seq<u8>, Seq<char>> {
    if nb.len() > u16::MAX {
        Err("File name too long (max 65535)"@)
    } else if fb.len() > u32::MAX {
        Err("File too large (max 4 GiB-1)"@)
    } else {
        Ok(magic(LEGACY_TAG) + seq![KIND_FILE] + u16_be_bytes(nb.len() as u16) + nb + u32_be_bytes(
            fb.len() as u32,
        ) + fb)
    }
}

/// Decoding of a text body whose length field starts at `off`.
pub open spec fn decode_text_spec(raw: Seq<u8>, off: int) -> Result<PayloadView, Seq<char>> {
    if raw.len() < off + 4 {
        Err("Invalid payload: truncated u32"@)
    } else {
        let n = be_u32_at(raw, off) as int;
        let o = off + 4;
        if raw.len() < o + n {
            Err("Invalid payload: truncated text"@)
        } else if !valid_utf8(raw.subrange(o, o + n)) {
            Err("Invalid payload: text is not UTF-8"@)
        } else {
            Ok(PayloadView::Text(decode_utf8(raw.subrange(o, o + n))))
        }
    }
}

/// Decoding of a file body whose name length field starts at `off`.
pub open spec fn decode_file_spec(raw: Seq<u8>, off: int) -> Result<PayloadView, Seq<char>> {
    if raw.len() < off + 2 {
        Err("Invalid payload: truncated u16"@)
    } else {
        let nl = be_u16_at(raw, off) as int;
        let o = off + 2;
        if raw.len() < o + nl {
            Err("Invalid payload: truncated file name"@)
        } else if !valid_utf8(raw.subrange(o, o + nl)) {
            Err("Invalid payload: file name is not UTF-8"@)
        } else if raw.len() < o + nl + 4 {
            Err("Invalid payload: truncated u32"@)
        } else {
            let fl = be_u32_at(raw, o + nl) as int;
            let o3 = o + nl + 4;
            if raw.len() < o3 + fl {
                Err("Invalid payload: truncated file bytes"@)
            } else {
                Ok(
                    PayloadView::File {
                        name: decode_utf8(raw.subrange(o, o + nl)),
                        bytes: raw.subrange(o3, o3 + fl),
                    },
                )
            }
        }
    }
}

/// Decoding of a bare payload record.
pub open spec fn decode_record(raw: Seq<u8>) -> Result<PayloadView, Seq<char>> {
    if raw.len() < 6 {
        Err("Invalid payload: too short"@)
    } else if raw.subrange(0, 5) != magic(LEGACY_TAG) {
        Err("Invalid payload: bad magic"@)
    } else if raw[5] == KIND_TEXT {
        decode_text_spec(raw, 6)
    } else if raw[5] == KIND_FILE {
        decode_file_spec(raw, 6)
    } else {
        Err("Invalid payload: unknown payload kind"@)
    }
}

/// Builds the bare record of a text payload.
pub fn encode_text_raw(text: &str) -> (r: Result<Vec<u8>, String>)
    ensures
        bytes_view(r) == text_record(text.spec_bytes()),
{
    let text_bytes = text.as_bytes();
    if text_bytes.len() > 0xffff_ffff {
        return Err(String::from_str("Text too large (max 4 GiB-1)"));
    }
    let text_len = text_bytes.len() as u32;
    let mut out: Vec<u8> = Vec::new();
    put_magic(&mut out, LEGACY_TAG);
    out.push(KIND_TEXT);
    put_u32_be(&mut out, text_len);
    out.extend_from_slice(text_bytes);
    assert(out@ =~= magic(LEGACY_TAG) + seq![KIND_TEXT] + u32_be_bytes(text_len) + text_bytes@);
    Ok(out)
}

/// Builds the bare record of a file payload.
pub fn encode_file_raw(name: &str, bytes: &[u8]) -> (r: Result<Vec<u8>, String>)
    ensures
        bytes_view(r) == file_record(name.spec_bytes(), bytes@),
{
    let name_bytes = name.as_bytes();
    if name_bytes.len() > 0xffff {
        return Err(String::from_str("File name too long (max 65535)"));
    }
    if bytes.len() > 0xffff_ffff {
        return Err(String::from_str("File too large (max 4 GiB-1)"));
    }
    let name_len = name_bytes.len() as u16;
    let file_len = bytes.len() as u32;
    let mut out: Vec<u8> = Vec::new();
    put_magic(&mut out, LEGACY_TAG);
    out.push(KIND_FILE);
    put_u16_be(&mut out, name_len);
    out.extend_from_slice(name_bytes);
    put_u32_be(&mut out, file_len);
    out.extend_from_slice(bytes);
    assert(out@ =~= magic(LEGACY_TAG) + seq![KIND_FILE] + u16_be_bytes(name_len) + name_bytes@
        + u32_be_bytes(file_len) + bytes@);
    Ok(out)
}

/// Decodes a bare payload record.
pub fn decode_legacy_payload(raw: &[u8]) -> (r: Result<Payload, String>)
    ensures
        payload_result_view(r) == decode_record(raw@),
{
    if raw.len() < 6 {
        return Err(String::from_str("Invalid payload: too short"));
    }
    if !(raw[0] == 83 && raw[1] == 84 && raw[2] == 69 && raw[3] == 71 && raw[4] == LEGACY_TAG) {
        proof {
            if raw@.subrange(0, 5) == magic(LEGACY_TAG) {
                assert(raw@.subrange(0, 5)[0] == 83);
                assert(raw@.subrange(0, 5)[1] == 84);
                assert(raw@.subrange(0, 5)[2] == 69);
                assert(raw@.subrange(0, 5)[3] == 71);
                assert(raw@.subrange(0, 5)[4] == LEGACY_TAG);
            }
        }
        return Err(String::from_str("Invalid payload: bad magic"));
    }
    assert(raw@.subrange(0, 5) =~= magic(LEGACY_TAG));
    let mut offset: usize = 5;
    let kind = raw[offset];
    offset += 1;
    if kind == KIND_TEXT {
        decode_text(raw, &mut offset)
    } else if kind == KIND_FILE {
        decode_file(raw, &mut offset)
    } else {
        Err(String::from_str("Invalid payload: unknown payload kind"))
    }
}

/// Decodes a text body whose length field starts at `*offset`; the offset
/// moves past the length field when that field is complete.
fn decode_text(raw: &[u8], offset: &mut usize) -> (r: Result<Payload, String>)
    requires
        *old(offset) <= raw@.len(),
    ensures
        payload_result_view(r) == decode_text_spec(raw@, *old(offset) as int),
        *final(offset) == (if raw@.len() < *old(offset) + 4 { *old(offset) as int } else { *old(offset) + 4 }),
{
    let text_len = match read_u32_be(raw, offset) {
        Ok(v) => v as usize,
        Err(e) => return Err(e),
    };
    let o = *offset;
    if text_len > raw.len() - o {
        return Err(String::from_str("Invalid payload: truncated text"));
    }
    let tb = slice_to_vec(&raw[o..o + text_len]);
    match string_from_utf8(tb) {
        Some(text) => Ok(Payload::Text(text)),
        None => Err(String::from_str("Invalid payload: text is not UTF-8")),
    }
}

/// Where `decode_file` leaves the offset: past each length field that was
/// complete, and past the name once it was read.
pub open spec fn decode_file_offset(raw: Seq<u8>, off: int) -> int {
    if raw.len() < off + 2 {
        off
    } else {
        let nl = be_u16_at(raw, off) as int;
        let o = off + 2;
        if raw.len() < o + nl || !valid_utf8(raw.subrange(o, o + nl)) {
            o
        } else if raw.len() < o + nl + 4 {
            o + nl
        } else {
            o + nl + 4
        }
    }
}

/// Decodes a file body whose name length field starts at `*offset`.
fn decode_file(raw: &[u8], offset: &mut usize) -> (r: Result<Payload, String>)
    requires
        *old(offset) <= raw@.len(),
    ensures
        payload_result_view(r) == decode_file_spec(raw@, *old(offset) as int),
        *final(offset) == decode_file_offset(raw@, *old(offset) as int),
{
    let name_len = match read_u16_be(raw, offset) {
        Ok(v) => v as usize,
        Err(e) => return Err(e),
    };
    let o = *offset;
    if name_len > raw.len() - o {
        return Err(String::from_str("Invalid payload: truncated file name"));
    }
    let nb = slice_to_vec(&raw[o..o + name_len]);
    let name = match string_from_utf8(nb) {
        Some(s) => s,
        None => return Err(String::from_str("Invalid payload: file name is not UTF-8")),
    };
    *offset = o + name_len;
    let file_len = match read_u32_be(raw, offset) {
        Ok(v) => v as usize,
        Err(e) => return Err(e),
    };
    let o3 = *offset;
    if file_len > raw.len() - o3 {
        return Err(String::from_str("Invalid payload: truncated file bytes"));
    }
    let bytes = slice_to_vec(&raw[o3..o3 + file_len]);
    Ok(Payload::File { name, bytes })
}

/// A text record decodes to the text it was built from.
pub proof fn lemma_text_record_round_trip(text: Seq<char>)
    ensures
        text_record(encode_utf8(text)) matches Ok(raw) ==> decode_record(raw) == Ok::<PayloadView, Seq<char>>(
            PayloadView::Text(text),
        ),
{
    let tb = encode_utf8(text);
    if let Ok(raw) = text_record(tb) {
        let n = tb.len() as u32;
        assert(raw.subrange(0, 5) =~= magic(LEGACY_TAG));
        assert(raw.subrange(6, 10) =~= u32_be_bytes(n));
        lemma_u32_round_trip(n, raw, 6);
        assert(raw.subrange(10, 10 + tb.len() as int) =~= tb);
    }
}

/// A file record decodes to the name and bytes it was built from.
pub proof fn lemma_file_record_round_trip(name: Seq<char>, bytes: Seq<u8>)
    ensures
        file_record(encode_utf8(name), bytes) matches Ok(raw) ==> decode_record(raw) == Ok::<
            PayloadView,
            Seq<char>,
        >(PayloadView::File { name, bytes }),
{
    let nb = encode_utf8(name);
    if let Ok(raw) = file_record(nb, bytes) {
        let nl = nb.len() as u16;
        let fl = bytes.len() as u32;
        assert(raw.subrange(0, 5) =~= magic(LEGACY_TAG));
        assert(raw.subrange(6, 8) =~= u16_be_bytes(nl));
        lemma_u16_round_trip(nl, raw, 6);
        assert(raw.subrange(8, 8 + nb.len() as int) =~= nb);
        let o2: int = 8 + nb.len() as int;
        assert(raw.subrange(o2, o2 + 4) =~= u32_be_bytes(fl));
        lemma_u32_round_trip(fl, raw, o2);
        assert(raw.subrange(o2 + 4, o2 + 4 + bytes.len() as int) =~= bytes);
    }
}

} // verus!
