//! Self-describing payloads (text or named file) and their byte formats.
pub mod binary;
pub mod container;

pub mod raw;

use vstd::prelude::*;
use vstd::string::{StrSliceExecFns, StringSliceAdditionalSpecFns};

use crate::text::bytes_view;
use container::{lemma_wrapped_metadata, unwrap_payload, unwrap_spec, wrap_payload, wrap_spec};
use binary::be_u16_at;
use raw::{decode_legacy_payload, decode_record, encode_file_raw, encode_text_raw, file_record, text_record};

verus! {

/// Last byte of the `STEG1` magic: a bare payload record.
pub const LEGACY_TAG: u8 = 49;
/// Last byte of the `STEG2` magic: a container with a storage kind.
pub const WRAPPED_TAG: u8 = 50;
/// Last byte of the `STEG3` magic: a container with metadata.
pub const RICH_TAG: u8 = 51;

pub const KIND_TEXT: u8 = 1;
pub const KIND_FILE: u8 = 2;

pub const STORAGE_RAW: u8 = 0;
pub const STORAGE_ZLIB: u8 = 1;

pub const PAYLOAD_VERSION: u8 = 3;
pub const ALGORITHM_DCT_LUMA: u16 = 1;
pub const FIRST_CHUNK_INDEX: u32 = 0;

/// A hidden message: text, or a file with its name.
#[derive(Debug, Clone, PartialEq, Eq)]
pub enum Payload {
    Text(String),
    File { name: String, bytes: Vec<u8> },
}

/// What a `Payload` holds, as characters and bytes.
pub enum PayloadView {
    Text(Seq<char>),
    File { name: Seq<char>, bytes: Seq<u8> },
}

impl View for Payload {
    type V = PayloadView;

    open spec fn view(&self) -> PayloadView {
        match self {
            Payload::Text(t) => PayloadView::Text(t@),
            Payload::File { name, bytes } => PayloadView::File { name: name@, bytes: bytes@ },
        }
    }
}

/// A payload result taken by its view.
pub open spec fn payload_result_view(r: Result<Payload, String>) -> Result<PayloadView, Seq<char>> {
    match r {
        Ok(p) => Ok(p@),
        Err(e) => Err(e@),
    }
}

/// The five magic bytes `S`, `T`, `E`, `G` and `tag`.
pub open spec fn magic(tag: u8) -> Seq<u8> {
    seq![83u8, 84u8, 69u8, 71u8, tag]
}

/// Whether `raw` begins with the magic of `tag`.
pub open spec fn has_magic(raw: Seq<u8>, tag: u8) -> bool {
    raw.len() >= 5 && raw.subrange(0, 5) == magic(tag)
}

/// Appends the magic bytes of `tag`.
pub fn put_magic(out: &mut Vec<u8>, tag: u8)
    ensures
        final(out)@ == old(out)@ + magic(tag),
{
    out.push(83);
    out.push(84);
    out.push(69);
    out.push(71);
    out.push(tag);
    assert(out@ =~= old(out)@ + magic(tag));
}

/// Whether `raw` begins with the magic of `tag`.
pub fn starts_with_magic(raw: &[u8], tag: u8) -> (b: bool)
    ensures
        b == has_magic(raw@, tag),
{
    if raw.len() < 5 {
        return false;
    }
    let b = raw[0] == 83 && raw[1] == 84 && raw[2] == 69 && raw[3] == 71 && raw[4] == tag;
    proof {
        if b {
            assert(raw@.subrange(0, 5) =~= magic(tag));
        } else {
            if raw@.subrange(0, 5) == magic(tag) {
                assert(raw@.subrange(0, 5)[4] == tag);
                assert(raw@.subrange(0, 5)[0] == 83);
                assert(raw@.subrange(0, 5)[1] == 84);
                assert(raw@.subrange(0, 5)[2] == 69);
                assert(raw@.subrange(0, 5)[3] == 71);
            }
        }
    }
    b
}

/// The MIME type recorded for text payloads.
pub open spec fn text_mime() -> Seq<u8> {
    "text/plain; charset=utf-8".spec_bytes()
}

/// What `encode_text` gives: the text record wrapped in a container.
pub open spec fn encode_text_spec(text: Seq<char>) -> Result<Seq<u8>, Seq<char>> {
    match text_record(vstd::utf8::encode_utf8(text)) {
        Err(e) => Err(e),
        Ok(raw) => wrap_spec(raw, text_mime()),
    }
}

/// What `encode_file` gives: the file record wrapped in a container tagged
/// with the MIME type guessed from the name.
pub open spec fn encode_file_spec(name: Seq<char>, bytes: Seq<u8>) -> Result<Seq<u8>, Seq<char>> {
    match file_record(vstd::utf8::encode_utf8(name), bytes) {
        Err(e) => Err(e),
        Ok(raw) => wrap_spec(raw, vstd::utf8::encode_utf8(mime_spec(name))),
    }
}

/// Decoding of any payload: a container is unwrapped first, anything else
/// is read as a bare record.
pub open spec fn decode_payload_spec(raw: Seq<u8>) -> Result<PayloadView, Seq<char>> {
    if has_magic(raw, WRAPPED_TAG) || has_magic(raw, RICH_TAG) {
        match unwrap_spec(raw) {
            Err(e) => Err(e),
            Ok(inner) => decode_record(inner),
        }
    } else {
        decode_record(raw)
    }
}

/// Encodes a text payload: its record, wrapped in a container. It succeeds
/// exactly when the record (10 bytes of header, then the UTF-8 text) fits a
/// 32-bit length. What comes back decodes to the same text.
pub fn encode_text(text: &str) -> (r: Result<Vec<u8>, String>)
    ensures
        bytes_view(r) == encode_text_spec(text@),
        r is Ok <==> 10 + text.spec_bytes().len() <= u32::MAX,
        r matches Ok(packed) ==> be_u16_at(packed@, 7) == "text/plain; charset=utf-8".spec_bytes().len()
            && packed@.subrange(9, 9 + "text/plain; charset=utf-8".spec_bytes().len() as int)
            == "text/plain; charset=utf-8".spec_bytes(),
        r matches Ok(packed) ==> decode_payload_spec(packed@) == Ok::<PayloadView, Seq<char>>(
            PayloadView::Text(text@),
        ),
{
    let raw = match encode_text_raw(text) {
        Ok(v) => v,
        Err(e) => return Err(e),
    };
    let mime = "text/plain; charset=utf-8";
    proof {
        reveal_strlit("text/plain; charset=utf-8");
    }
    proof {
        lemma_utf8_len_bound(mime@);
    }
    let r = wrap_payload(raw.as_slice(), mime);
    proof {
        raw::lemma_text_record_round_trip(text@);
        lemma_wrapped_has_rich_magic(raw@, mime.spec_bytes());
        assert(bytes_view(r) == encode_text_spec(text@));
        let m = "text/plain; charset=utf-8".spec_bytes();
        assert(r matches Ok(packed) ==> be_u16_at(packed@, 7) == m.len() && packed@.subrange(9, 9 + m.len() as int)
            == m) by {
            lemma_text_container_mime(text@);
        }
    }
    r
}

/// Encodes a file payload: its record, wrapped in a container tagged with
/// the MIME type guessed from the name. It succeeds exactly when the UTF-8
/// name fits a 16-bit length and the record (12 bytes of header, the name,
/// the bytes) a 32-bit one. What comes back decodes to the same name and
/// bytes.
pub fn encode_file(name: &str, bytes: &[u8]) -> (r: Result<Vec<u8>, String>)
    ensures
        bytes_view(r) == encode_file_spec(name@, bytes@),
        r is Ok <==> name.spec_bytes().len() <= u16::MAX && 12 + name.spec_bytes().len() + bytes@.len()
            <= u32::MAX,
        r matches Ok(packed) ==> decode_payload_spec(packed@) == Ok::<PayloadView, Seq<char>>(
            PayloadView::File { name: name@, bytes: bytes@ },
        ),
{
    let raw = match encode_file_raw(name, bytes) {
        Ok(v) => v,
        Err(e) => return Err(e),
    };
    let mime = mime_for_name(name);
    proof {
        lemma_mime_short(name@);
        lemma_utf8_len_bound(mime@);
    }
    let r = wrap_payload(raw.as_slice(), mime);
    proof {
        raw::lemma_file_record_round_trip(name@, bytes@);
        lemma_wrapped_has_rich_magic(raw@, mime.spec_bytes());
        lemma_mime_not_empty(name@);
    }
    r
}

/// A text payload's container is labelled "text/plain; charset=utf-8": the
/// MIME field (length at offset 7, bytes from offset 9) holds exactly that
/// string.
pub proof fn lemma_text_container_mime(text: Seq<char>)
    ensures
        encode_text_spec(text) matches Ok(out) ==> {
            let m = "text/plain; charset=utf-8".spec_bytes();
            &&& be_u16_at(out, 7) == m.len()
            &&& out.subrange(9, 9 + m.len() as int) == m
        },
{
    if let Ok(raw) = text_record(vstd::utf8::encode_utf8(text)) {
        lemma_wrapped_metadata(raw, text_mime());
    }
}

/// A file payload's container is labelled with the MIME type guessed from
/// the file's name: the MIME field holds exactly its UTF-8 bytes.
pub proof fn lemma_file_container_mime(name: Seq<char>, bytes: Seq<u8>)
    ensures
        encode_file_spec(name, bytes) matches Ok(out) ==> {
            let m = vstd::utf8::encode_utf8(mime_spec(name));
            &&& be_u16_at(out, 7) == m.len()
            &&& out.subrange(9, 9 + m.len() as int) == m
        },
{
    if let Ok(raw) = file_record(vstd::utf8::encode_utf8(name), bytes) {
        lemma_wrapped_metadata(raw, vstd::utf8::encode_utf8(mime_spec(name)));
    }
}

/// Decodes a payload, unwrapping its container when it has one.
pub fn decode_payload(raw: &[u8]) -> (r: Result<Payload, String>)
    ensures
        payload_result_view(r) == decode_payload_spec(raw@),
{
    if starts_with_magic(raw, WRAPPED_TAG) || starts_with_magic(raw, RICH_TAG) {
        let inner = match unwrap_payload(raw) {
            Ok(v) => v,
            Err(e) => return Err(e),
        };
        return decode_legacy_payload(inner.as_slice());
    }
    decode_legacy_payload(raw)
}

proof fn lemma_wrapped_has_rich_magic(inner: Seq<u8>, mime: Seq<u8>)
    ensures
        wrap_spec(inner, mime) matches Ok(out) ==> has_magic(out, RICH_TAG),
{
    if let Ok(out) = wrap_spec(inner, mime) {
        assert(out.subrange(0, 5) =~= magic(RICH_TAG));
    }
}

/// Index of the last `.` in `s`.
pub open spec fn last_dot(s: Seq<char>) -> Option<int>
    decreases s.len(),
{
    if s.len() == 0 {
        None
    } else if s.last() == '.' {
        Some(s.len() - 1)
    } else {
        last_dot(s.drop_last())
    }
}

/// ASCII upper-case letters mapped to lower case; other characters kept.
pub open spec fn ascii_lower(c: char) -> char {
    if 'A' <= c && c <= 'Z' {
        ((c as u32) + 32) as char
    } else {
        c
    }
}

/// The text after the last `.` of a file name, in ASCII lower case.
pub open spec fn lower_extension(name: Seq<char>) -> Option<Seq<char>> {
    match last_dot(name) {
        None => None,
        Some(i) => Some(name.subrange(i + 1, name.len() as int).map_values(|c: char| ascii_lower(c))),
    }
}

/// The MIME type guessed from a file name's extension.
pub open spec fn mime_spec(name: Seq<char>) -> Seq<char> {
    match lower_extension(name) {
        Some(e) => if e == seq!['t', 'x', 't'] {
            "text/plain"@
        } else if e == seq!['p', 'd', 'f'] {
            "application/pdf"@
        } else if e == seq!['p', 'n', 'g'] {
            "image/png"@
        } else if e == seq!['j', 'p', 'g'] || e == seq!['j', 'p', 'e', 'g'] {
            "image/jpeg"@
        } else if e == seq!['w', 'a', 'v'] {
            "audio/wav"@
        } else {
            "application/octet-stream"@
        },
        None => "application/octet-stream"@,
    }
}

/// UTF-8 takes at most four bytes per character.
proof fn lemma_utf8_len_bound(chars: Seq<char>)
    ensures
        vstd::utf8::encode_utf8(chars).len() <= 4 * chars.len(),
    decreases chars.len(),
{
    if chars.len() > 0 {
        lemma_utf8_len_bound(chars.drop_first());
    }
}

proof fn lemma_mime_short(name: Seq<char>)
    ensures
        mime_spec(name).len() <= 24,
{
    reveal_strlit("text/plain");
    reveal_strlit("application/pdf");
    reveal_strlit("image/png");
    reveal_strlit("image/jpeg");
    reveal_strlit("audio/wav");
    reveal_strlit("application/octet-stream");
}

proof fn lemma_mime_not_empty(name: Seq<char>)
    ensures
        mime_spec(name).len() > 0,
{
    reveal_strlit("text/plain");
    reveal_strlit("application/pdf");
    reveal_strlit("image/png");
    reveal_strlit("image/jpeg");
    reveal_strlit("audio/wav");
    reveal_strlit("application/octet-stream");
}

fn lower_char(c: char) -> (l: char)
    ensures
        l == ascii_lower(c),
{
    if 'A' <= c && c <= 'Z' {
        ((c as u8) + 32) as char
    } else {
        c
    }
}

/// Whether `chars[start..]`, lower-cased, equals `target`.
fn lower_tail_equals(chars: &Vec<char>, start: usize, target: &[char]) -> (b: bool)
    requires
        start <= chars@.len(),
    ensures
        b == (chars@.subrange(start as int, chars@.len() as int).map_values(|c: char| ascii_lower(c))
            == target@),
{
    let ghost tail = chars@.subrange(start as int, chars@.len() as int).map_values(|c: char| ascii_lower(c));
    if chars.len() - start != target.len() {
        assert(tail.len() != target@.len());
        return false;
    }
    let mut i: usize = 0;
    while i < target.len()
        invariant
            start <= chars@.len(),
            chars@.len() - start == target@.len(),
            chars@.len() <= usize::MAX,
            i <= target@.len(),
            tail == chars@.subrange(start as int, chars@.len() as int).map_values(|c: char| ascii_lower(c)),
            forall|k: int| 0 <= k < i ==> tail[k] == target@[k],
        decreases target@.len() - i,
    {
        assert(start + i < chars@.len());
        if lower_char(chars[start + i]) != target[i] {
            assert(tail[i as int] != target@[i as int]);
            return false;
        }
        i = i + 1;
    }
    assert(tail =~= target@);
    true
}

/// Guesses a MIME type from the extension of a file name (case-insensitive).
pub fn mime_for_name(name: &str) -> (m: &'static str)
    ensures
        m@ == mime_spec(name@),
{
    let n = name.unicode_len();
    let mut chars: Vec<char> = Vec::new();
    let mut i: usize = 0;
    while i < n
        invariant
            n == name@.len(),
            i <= n,
            chars@ == name@.subrange(0, i as int),
        decreases n - i,
    {
        chars.push(name.get_char(i));
        i = i + 1;
        assert(chars@ =~= name@.subrange(0, i as int));
    }
    assert(chars@ =~= name@);
    let mut j: usize = n;
    let mut dot: Option<usize> = None;
    while j > 0
        invariant
            chars@ == name@,
            j <= n == chars@.len(),
            dot is None ==> last_dot(chars@) == last_dot(chars@.subrange(0, j as int)),
            dot matches Some(d) ==> last_dot(chars@) == Some(d as int) && d < n,
            dot is Some ==> j == 0,
        decreases j,
    {
        let ghost pre = chars@.subrange(0, j as int);
        assert(pre.drop_last() =~= chars@.subrange(0, j - 1));
        if chars[j - 1] == '.' {
            dot = Some(j - 1);
            j = 0;
        } else {
            j = j - 1;
        }
    }
    let d = match dot {
        None => {
            assert(chars@.subrange(0, 0) =~= Seq::<char>::empty());
            return "application/octet-stream";
        },
        Some(d) => d,
    };
    let start = d + 1;
    if lower_tail_equals(&chars, start, &['t', 'x', 't']) {
        "text/plain"
    } else if lower_tail_equals(&chars, start, &['p', 'd', 'f']) {
        "application/pdf"
    } else if lower_tail_equals(&chars, start, &['p', 'n', 'g']) {
        "image/png"
    } else if lower_tail_equals(&chars, start, &['j', 'p', 'g']) || lower_tail_equals(
        &chars,
        start,
        &['j', 'p', 'e', 'g'],
    ) {
        "image/jpeg"
    } else if lower_tail_equals(&chars, start, &['w', 'a', 'v']) {
        "audio/wav"
    } else {
        "application/octet-stream"
    }
}

} // verus!
