//! Stored bytes as text, with or without compression.

use vstd::prelude::*;
use vstd::utf8::{
    decode_utf8, decode_utf8_encode_utf8, encode_utf8, encode_utf8_decode_utf8,
    encode_utf8_valid_utf8, valid_utf8,
};

verus! {

/// What `String::from_utf8_lossy` makes of bytes that are not UTF-8.
pub uninterp spec fn utf8_lossy(bytes: Seq<u8>) -> Seq<char>;

/// What `zstd::decode_all` makes of bytes: the content of the frames, or
/// nothing if it reports an error.
pub uninterp spec fn zstd_decoded(data: Seq<u8>) -> Option<Seq<u8>>;

/// Bytes as text: what they encode in UTF-8, with U+FFFD in place of what is
/// not UTF-8.
pub open spec fn readable(bytes: Seq<u8>) -> Seq<char> {
    if valid_utf8(bytes) {
        decode_utf8(bytes)
    } else {
        utf8_lossy(bytes)
    }
}

/// `String::from_utf8_lossy`: bytes in UTF-8 give the text that they encode;
/// of other bytes the text is named, not described.
#[verifier::external_body]
pub(crate) fn lossy_text(bytes: &[u8]) -> (s: String)
    ensures
        valid_utf8(bytes@) ==> s@ == decode_utf8(bytes@),
        !valid_utf8(bytes@) ==> s@ == utf8_lossy(bytes@),
{
    String::from_utf8_lossy(bytes).into_owned()
}

/// `String::from_utf8`: gives the text that the bytes encode if they are
/// UTF-8, and an error otherwise.
#[verifier::external_body]
pub(crate) fn utf8_text(bytes: Vec<u8>) -> (s: Option<String>)
    ensures
        match s {
            Some(t) => valid_utf8(bytes@) && t@ == decode_utf8(bytes@),
            None => !valid_utf8(bytes@),
        },
{
    String::from_utf8(bytes).ok()
}

/// `zstd::decode_all` on bytes in memory. Its result depends on the bytes
/// alone and is named, not described.
#[verifier::external_body]
fn zstd_decode(data: &[u8]) -> (dec: Option<Vec<u8>>)
    ensures
        match dec {
            Some(d) => zstd_decoded(data@) == Some(d@),
            None => zstd_decoded(data@) is None,
        },
{
    zstd::decode_all(data).ok()
}

/// The content of bytes that may be missing.
pub open spec fn opt_bytes(b: Option<Vec<u8>>) -> Option<Seq<u8>> {
    match b {
        Some(v) => Some(v@),
        None => None,
    }
}

// ---------------------------------------------------------------------------
// Messages

/// The text of a message, given what decompression made of it.
pub open spec fn message_text(data: Seq<u8>, dec: Option<Seq<u8>>) -> Seq<char> {
    match dec {
        Some(d) => readable(d),
        None => readable(data),
    }
}

/// The text of a message: decompressed if the message is marked as compressed
/// and can be decompressed, as it is otherwise.
pub open spec fn stored_text(data: Seq<u8>, ct: i64) -> Seq<char> {
    message_text(
        data,
        if ct == 4 && data.len() > 0 {
            zstd_decoded(data)
        } else {
            None
        },
    )
}

/// The text of a message, from its bytes and from what decompression made of
/// them.
pub fn text_of_message(data: &[u8], dec: Option<Vec<u8>>) -> (s: String)
    ensures
        s@ == message_text(data@, opt_bytes(dec)),
{
    match dec {
        Some(d) => lossy_text(d.as_slice()),
        None => lossy_text(data),
    }
}

/// The text of a message, from its bytes and its compression mark.
pub fn decompress_message(data: &[u8], ct: i64) -> (s: String)
    ensures
        s@ == stored_text(data@, ct),
{
    let dec = if ct == 4 && !data.is_empty() {
        zstd_decode(data)
    } else {
        None
    };
    text_of_message(data, dec)
}

// ---------------------------------------------------------------------------
// Summaries

/// The text of a summary, given what decompression made of it.
pub open spec fn summary_text(data: Seq<u8>, dec: Option<Seq<u8>>) -> Seq<char> {
    match dec {
        Some(d) => if valid_utf8(d) {
            decode_utf8(d)
        } else {
            readable(data)
        },
        None => readable(data),
    }
}

/// The text of a summary: decompressed if that gives text, as it is otherwise.
pub open spec fn stored_summary(data: Seq<u8>) -> Seq<char> {
    if data.len() == 0 {
        Seq::empty()
    } else {
        summary_text(data, zstd_decoded(data))
    }
}

/// The text of a summary, from its bytes and from what decompression made of
/// them.
pub fn text_of_summary(data: &[u8], dec: Option<Vec<u8>>) -> (s: String)
    ensures
        s@ == summary_text(data@, opt_bytes(dec)),
{
    if let Some(d) = dec {
        if let Some(s) = utf8_text(d) {
            return s;
        }
    }
    lossy_text(data)
}

/// The text of a summary, from its bytes.
pub fn decompress_or_str(data: &[u8]) -> (s: String)
    ensures
        s@ == stored_summary(data@),
{
    if data.is_empty() {
        return String::new();
    }
    let dec = zstd_decode(data);
    text_of_summary(data, dec)
}

// ---------------------------------------------------------------------------
// Laws

/// Text that was stored without compression is read back unchanged.
pub proof fn plain_text_reads_back(text: Seq<char>, ct: i64)
    requires
        ct != 4,
    ensures
        stored_text(encode_utf8(text), ct) == text,
{
    encode_utf8_valid_utf8(text);
    encode_utf8_decode_utf8(text);
}

/// Text that decompression gives back is read back unchanged, from a message
/// and from a summary.
pub proof fn compressed_text_reads_back(data: Seq<u8>, text: Seq<char>)
    requires
        data.len() > 0,
        zstd_decoded(data) == Some(encode_utf8(text)),
    ensures
        stored_text(data, 4) == text,
        stored_summary(data) == text,
{
    encode_utf8_valid_utf8(text);
    encode_utf8_decode_utf8(text);
}

/// What cannot be decompressed is read as it is, whatever its mark.
pub proof fn undecodable_text_is_kept(text: Seq<char>, ct: i64)
    requires
        zstd_decoded(encode_utf8(text)) is None,
    ensures
        stored_text(encode_utf8(text), ct) == text,
        stored_summary(encode_utf8(text)) == text,
{
    encode_utf8_valid_utf8(text);
    encode_utf8_decode_utf8(text);
    if encode_utf8(text).len() == 0 {
        assert(encode_utf8(text) =~= encode_utf8(Seq::<char>::empty()));
        encode_utf8_decode_utf8(Seq::<char>::empty());
    }
}

/// Bytes that are the encoding of text are read as that text; others are read
/// with marks in place of what is not text.
pub proof fn encoded_text_is_readable(bytes: Seq<u8>, text: Seq<char>)
    ensures
        bytes == encode_utf8(text) ==> readable(bytes) == text,
        (forall|t: Seq<char>| bytes != #[trigger] encode_utf8(t)) ==> readable(bytes) == utf8_lossy(
            bytes,
        ),
{
    encode_utf8_valid_utf8(text);
    encode_utf8_decode_utf8(text);
    if valid_utf8(bytes) {
        decode_utf8_encode_utf8(bytes);
        assert(bytes == encode_utf8(decode_utf8(bytes)));
    }
}

/// A message is decompressed only if it is marked as compressed, and read as it
/// is if it is not marked or cannot be decompressed.
pub proof fn marked_messages_are_decompressed(data: Seq<u8>, ct: i64)
    ensures
        ct != 4 ==> stored_text(data, ct) == readable(data),
        ct == 4 && data.len() > 0 ==> (zstd_decoded(data) matches Some(d) ==> stored_text(data, ct)
            == readable(d)),
        zstd_decoded(data) is None ==> stored_text(data, ct) == readable(data),
        data.len() == 0 ==> stored_text(data, ct) == readable(data),
{
}

/// A summary is decompressed if that gives text, and read as it is otherwise.
pub proof fn summaries_are_decompressed_to_text(data: Seq<u8>, text: Seq<char>)
    requires
        data.len() > 0,
    ensures
        zstd_decoded(data) == Some(encode_utf8(text)) ==> stored_summary(data) == text,
        zstd_decoded(data) is None ==> stored_summary(data) == readable(data),
        (zstd_decoded(data) matches Some(d) && forall|t: Seq<char>| d != #[trigger] encode_utf8(t))
            ==> stored_summary(data) == readable(data),
{
    encode_utf8_valid_utf8(text);
    encode_utf8_decode_utf8(text);
    if let Some(d) = zstd_decoded(data) {
        if valid_utf8(d) {
            decode_utf8_encode_utf8(d);
            assert(d == encode_utf8(decode_utf8(d)));
        }
    }
}

/// What decompression gave decides what is read.
pub proof fn decompressed_bytes_come_first(data: Seq<u8>, dec: Seq<u8>)
    ensures
        message_text(data, Some(dec)) == readable(dec),
        message_text(data, None) == readable(data),
        summary_text(data, None) == readable(data),
        valid_utf8(dec) ==> summary_text(data, Some(dec)) == decode_utf8(dec),
        !valid_utf8(dec) ==> summary_text(data, Some(dec)) == readable(data),
{
}

/// Nothing stored is read as nothing.
pub proof fn nothing_is_read_as_nothing(ct: i64)
    ensures
        stored_text(Seq::empty(), ct).len() == 0,
        stored_summary(Seq::empty()).len() == 0,
{
    let none = Seq::<char>::empty();
    encode_utf8_decode_utf8(none);
    encode_utf8_valid_utf8(none);
    assert(encode_utf8(none) =~= Seq::<u8>::empty());
}

} // verus!
