//! What a sender puts on the wire, and what it makes of the answers.
//!
//! A chunk travels with a header: its index, the number of chunks, the size of the file, the name of
//! the file with its length, and a tag that tells the transfer from others. Integers are big-endian.
use rand::Rng;
use vstd::arithmetic::power::pow;
use vstd::prelude::*;
use vstd::slice::slice_subrange;
use vstd::utf8::{decode_utf8, encode_utf8, valid_utf8};
use vstd::string::StringSliceAdditionalSpecFns;
use crate::rounding::{double_of, nearest_double};
use crate::text::{
    chars_start_with, decimal, decimal_of, joined, padded, padded_of, parse_number, parse_unsigned,
    starts_with, to_chars, utf8_decode_lossy, utf8_lossy,
};
use crate::wire::{be_bytes, be_value, write_be_u16, write_be_u32, write_be_u64};

verus! {

/// The number of characters of a tag.
pub const FILE_TAG_LEN: usize = 22;

/// The number of bytes of a chunk, the last one apart.
pub const CHUNK_SIZE: usize = 64 * 1024;

/// The index that marks a handshake.
pub const HANDSHAKE_CHUNK_IDX: u32 = 0xFFFF_FFFF;

/// So long, in seconds, the answer to a handshake is waited for.
pub const HANDSHAKE_TIMEOUT_SECS: u64 = 20;

/// How many characters a tag can be made of.
pub const ALPHABET_LEN: usize = 62;

/// The characters that a tag is made of.
pub open spec fn alphabet() -> Seq<char> {
    "ABCDEFGHIJKLMNOPQRSTUVWXYZabcdefghijklmnopqrstuvwxyz0123456789"@
}

// ---------------------------------------------------------------------------------------------
// Chunks
// ---------------------------------------------------------------------------------------------

/// The number of chunks of a file: its size as a double, divided by that of a chunk, rounded up.
pub open spec fn chunks_of(file_size: nat) -> nat {
    (nearest_double(file_size) + (CHUNK_SIZE - 1) as nat) / (CHUNK_SIZE as nat)
}

/// The number of chunks of a file, or the largest number there is.
pub fn chunk_count(file_size: u64) -> (n: usize)
    ensures
        n == if chunks_of(file_size as nat) <= usize::MAX {
            chunks_of(file_size as nat)
        } else {
            usize::MAX as nat
        },
{
    let n: u128 = (double_of(file_size as u128) + 65_535) / 65_536;
    if n <= usize::MAX as u128 {
        n as usize
    } else {
        usize::MAX
    }
}

/// A file of up to 2^53 bytes has as many chunks as hold it: all but the last are full, and the last
/// is not empty.
pub proof fn law_chunks_hold_the_file(file_size: nat)
    requires
        file_size <= crate::rounding::DOUBLE_RANGE,
    ensures
        chunks_of(file_size) * CHUNK_SIZE >= file_size,
        file_size > 0 ==> (chunks_of(file_size) - 1) * CHUNK_SIZE < file_size,
        file_size == 0 ==> chunks_of(file_size) == 0,
{
    crate::rounding::lemma_small_is_double(file_size);
}

/// The message that asks whether the recipient is there.
pub open spec fn handshake_bytes(file_tag: Seq<char>) -> Seq<u8> {
    be_bytes(HANDSHAKE_CHUNK_IDX as nat, 4) + be_bytes(0, 4) + be_bytes(0, 8) + be_bytes(0, 2)
        + encode_utf8(file_tag)
}

/// The message that asks whether the recipient is there.
pub fn build_handshake_payload(file_tag: &str) -> (payload: Vec<u8>)
    ensures
        payload@ == handshake_bytes(file_tag@),
{
    let mut payload: Vec<u8> = Vec::new();
    write_be_u32(&mut payload, HANDSHAKE_CHUNK_IDX as usize);
    write_be_u32(&mut payload, 0);
    write_be_u64(&mut payload, 0);
    write_be_u16(&mut payload, 0);
    payload.extend_from_slice(file_tag.as_bytes());
    assert(payload@ =~= handshake_bytes(file_tag@));
    payload
}

/// The header of a chunk. Of the two chunk numbers the four low-order bytes are kept, of the length
/// of the name the two low-order ones.
pub open spec fn header_bytes(
    chunk_idx: nat,
    total_chunks: nat,
    file_size: nat,
    filename: Seq<char>,
    file_tag: Seq<char>,
) -> Seq<u8> {
    be_bytes(chunk_idx, 4) + be_bytes(total_chunks, 4) + be_bytes(file_size, 8) + be_bytes(
        encode_utf8(filename).len(),
        2,
    ) + encode_utf8(filename) + encode_utf8(file_tag)
}

/// The header of a chunk.
pub fn build_chunk_header(
    chunk_idx: usize,
    total_chunks: usize,
    file_size: u64,
    filename: &str,
    file_tag: &str,
) -> (header: Vec<u8>)
    ensures
        header@ == header_bytes(
            chunk_idx as nat,
            total_chunks as nat,
            file_size as nat,
            filename@,
            file_tag@,
        ),
{
    let mut header: Vec<u8> = Vec::new();
    write_be_u32(&mut header, chunk_idx);
    write_be_u32(&mut header, total_chunks);
    write_be_u64(&mut header, file_size);
    let name: &[u8] = filename.as_bytes();
    write_be_u16(&mut header, name.len());
    header.extend_from_slice(name);
    header.extend_from_slice(file_tag.as_bytes());
    assert(header@ =~= header_bytes(
        chunk_idx as nat,
        total_chunks as nat,
        file_size as nat,
        filename@,
        file_tag@,
    ));
    header
}

/// A chunk as it travels: its header, then its data.
pub fn build_chunk_payload(
    chunk_idx: usize,
    total_chunks: usize,
    file_size: u64,
    filename: &str,
    file_tag: &str,
    data: &[u8],
) -> (payload: Vec<u8>)
    ensures
        payload@ == header_bytes(
            chunk_idx as nat,
            total_chunks as nat,
            file_size as nat,
            filename@,
            file_tag@,
        ) + data@,
{
    let mut payload = build_chunk_header(chunk_idx, total_chunks, file_size, filename, file_tag);
    payload.extend_from_slice(data);
    payload
}

/// Everything can be read back from a chunk as it travels: the numbers from their places, then, as
/// long as the name says, the name, then the tag and the data.
pub proof fn law_chunk_fields(
    chunk_idx: nat,
    total_chunks: nat,
    file_size: nat,
    filename: Seq<char>,
    file_tag: Seq<char>,
    data: Seq<u8>,
)
    requires
        chunk_idx <= u32::MAX,
        total_chunks <= u32::MAX,
        file_size <= u64::MAX,
        encode_utf8(filename).len() <= u16::MAX,
    ensures
        ({
            let s = header_bytes(chunk_idx, total_chunks, file_size, filename, file_tag) + data;
            let name_end = 18 + encode_utf8(filename).len() as int;
            let tag_end = name_end + encode_utf8(file_tag).len() as int;
            &&& be_value(s.subrange(0, 4)) == chunk_idx
            &&& be_value(s.subrange(4, 8)) == total_chunks
            &&& be_value(s.subrange(8, 16)) == file_size
            &&& be_value(s.subrange(16, 18)) == encode_utf8(filename).len()
            &&& s.subrange(18, name_end) == encode_utf8(filename)
            &&& s.subrange(name_end, tag_end) == encode_utf8(file_tag)
            &&& s.skip(tag_end) == data
        }),
{
    let s = header_bytes(chunk_idx, total_chunks, file_size, filename, file_tag) + data;
    let name = encode_utf8(filename);
    let tag = encode_utf8(file_tag);
    crate::wire::lemma_byte_ranges();
    crate::wire::lemma_be_bytes_len(chunk_idx, 4);
    crate::wire::lemma_be_bytes_len(total_chunks, 4);
    crate::wire::lemma_be_bytes_len(file_size, 8);
    crate::wire::lemma_be_bytes_len(name.len(), 2);
    crate::wire::lemma_be_round_trip(chunk_idx, 4);
    crate::wire::lemma_be_round_trip(total_chunks, 4);
    crate::wire::lemma_be_round_trip(file_size, 8);
    assert(crate::wire::byte_range(2) == 0x1_0000) by {
        reveal_with_fuel(crate::wire::byte_range, 3);
    }
    crate::wire::lemma_be_round_trip(name.len(), 2);
    assert(s.subrange(0, 4) =~= be_bytes(chunk_idx, 4));
    assert(s.subrange(4, 8) =~= be_bytes(total_chunks, 4));
    assert(s.subrange(8, 16) =~= be_bytes(file_size, 8));
    assert(s.subrange(16, 18) =~= be_bytes(name.len(), 2));
    assert(s.subrange(18, 18 + name.len() as int) =~= name);
    assert(s.subrange(18 + name.len() as int, 18 + name.len() as int + tag.len() as int) =~= tag);
    assert(s.skip(18 + name.len() as int + tag.len() as int) =~= data);
}

/// Where a chunk starts in its file, if that is a position.
pub fn resend_offset(chunk_idx: usize) -> (offset: Option<u64>)
    ensures
        match offset {
            Some(at) => at == chunk_idx * CHUNK_SIZE,
            None => chunk_idx * CHUNK_SIZE > u64::MAX,
        },
        offset matches Some(at) ==> at == chunk_idx * 65536,
{
    (chunk_idx as u64).checked_mul(CHUNK_SIZE as u64)
}

// ---------------------------------------------------------------------------------------------
// Tags
// ---------------------------------------------------------------------------------------------

/// Calls `rand::Rng::gen_range` on the generator of `rand::thread_rng`: a number below the bound.
/// Which one it is, is left to chance.
#[verifier::external_body]
fn random_below(bound: usize) -> (n: usize)
    requires
        0 < bound,
    ensures
        n < bound,
{
    rand::thread_rng().gen_range(0..bound)
}

/// The text whose characters stand at some places of the alphabet.
pub fn tag_from_indices(indices: &Vec<usize>) -> (tag: String)
    requires
        forall|i: int| 0 <= i < indices@.len() ==> indices@[i] < ALPHABET_LEN,
    ensures
        tag@ == indices@.map_values(|k: usize| alphabet()[k as int]),
{
    let letters = to_chars("ABCDEFGHIJKLMNOPQRSTUVWXYZabcdefghijklmnopqrstuvwxyz0123456789");
    proof {
        reveal_strlit("ABCDEFGHIJKLMNOPQRSTUVWXYZabcdefghijklmnopqrstuvwxyz0123456789");
    }
    let mut tag = String::new();
    let mut i: usize = 0;
    while i < indices.len()
        invariant
            i <= indices@.len(),
            letters@ == alphabet(),
            letters@.len() == ALPHABET_LEN,
            forall|j: int| 0 <= j < indices@.len() ==> indices@[j] < ALPHABET_LEN,
            tag@ == indices@.take(i as int).map_values(|k: usize| alphabet()[k as int]),
        decreases indices.len() - i,
    {
        tag.push(letters[indices[i]]);
        i = i + 1;
        assert(indices@.take(i as int) =~= indices@.take(i - 1).push(indices@[i - 1]));
        assert(tag@ =~= indices@.take(i as int).map_values(|k: usize| alphabet()[k as int]));
    }
    assert(indices@.take(i as int) =~= indices@);
    tag
}

/// A tag for a transfer, drawn at random.
pub fn generate_file_tag() -> (tag: String)
    ensures
        tag@.len() == FILE_TAG_LEN,
        tag@.len() == 22,
        forall|i: int| 0 <= i < tag@.len() ==> alphabet().contains(#[trigger] tag@[i]),
{
    let mut indices: Vec<usize> = Vec::new();
    let mut i: usize = 0;
    while i < FILE_TAG_LEN
        invariant
            i <= FILE_TAG_LEN,
            indices@.len() == i,
            forall|j: int| 0 <= j < i ==> indices@[j] < ALPHABET_LEN,
        decreases FILE_TAG_LEN - i,
    {
        indices.push(random_below(ALPHABET_LEN));
        i = i + 1;
    }
    let tag = tag_from_indices(&indices);
    proof {
        reveal_strlit("ABCDEFGHIJKLMNOPQRSTUVWXYZabcdefghijklmnopqrstuvwxyz0123456789");
        assert forall|j: int| 0 <= j < tag@.len() implies alphabet().contains(
            #[trigger] tag@[j],
        ) by {
            assert(tag@[j] == alphabet()[indices@[j] as int]);
        }
    }
    tag
}

// ---------------------------------------------------------------------------------------------
// Answers
// ---------------------------------------------------------------------------------------------

/// What an answer to a handshake starts with when the recipient is ready.
pub open spec fn ready_prefix(file_tag: Seq<char>) -> Seq<char> {
    "READY:"@ + file_tag
}

/// Whether a text is the answer of a recipient that is ready for the transfer with this tag.
pub fn is_ready_answer(text: &str, file_tag: &str) -> (r: bool)
    ensures
        r == ready_prefix(file_tag@).is_prefix_of(text@),
        r <==> ("READY:"@ + file_tag@).is_prefix_of(text@),
{
    starts_with(text, &joined("READY:", file_tag))
}

/// Whether a message is the answer of a recipient that is ready for the transfer with this tag.
pub fn handshake_accepted(message: &[u8], file_tag: &str) -> (r: bool)
    ensures
        r == ready_prefix(file_tag@).is_prefix_of(utf8_lossy(message@)),
        valid_utf8(message@) ==> r == ready_prefix(file_tag@).is_prefix_of(decode_utf8(message@)),
        r <==> ("READY:"@ + file_tag@).is_prefix_of(utf8_lossy(message@)),
{
    is_ready_answer(&utf8_decode_lossy(message), file_tag)
}

/// What a message that comes after the chunks is.
#[derive(Debug, Clone, Copy, PartialEq, Eq, Structural)]
pub enum Incoming {
    /// A message without content.
    Empty,
    /// A request for the chunk with this index.
    Resend(usize),
    /// A request for a chunk whose index cannot be read.
    BadResend,
    /// The reply to the transfer.
    Reply,
}

/// What a text that comes after the chunks is.
pub open spec fn incoming_text(text: Seq<char>) -> Incoming {
    if "RESEND:"@.is_prefix_of(text) {
        match parse_unsigned(text.skip("RESEND:"@.len() as int), usize::MAX as nat) {
            Some(index) => Incoming::Resend(index as usize),
            None => Incoming::BadResend,
        }
    } else {
        Incoming::Reply
    }
}

/// What a message that comes after the chunks is.
pub open spec fn incoming(message: Seq<u8>) -> Incoming {
    if message.len() == 0 {
        Incoming::Empty
    } else {
        incoming_text(utf8_lossy(message))
    }
}

/// What a text that comes after the chunks is.
pub fn classify_text(text: &str) -> (what: Incoming)
    ensures
        what == incoming_text(text@),
{
    let chars = to_chars(text);
    let prefix = to_chars("RESEND:");
    if !chars_start_with(chars.as_slice(), prefix.as_slice()) {
        return Incoming::Reply;
    }
    let index: &[char] = slice_subrange(chars.as_slice(), prefix.len(), chars.len());
    assert(index@ =~= text@.skip("RESEND:"@.len() as int));
    match parse_number(index, usize::MAX as u64) {
        Some(n) => Incoming::Resend(n as usize),
        None => Incoming::BadResend,
    }
}

/// What a message that comes after the chunks is.
pub fn classify_message(message: &[u8]) -> (what: Incoming)
    ensures
        what == incoming(message@),
        message@.len() > 0 && valid_utf8(message@) ==> what == incoming_text(decode_utf8(message@)),
{
    if message.len() == 0 {
        return Incoming::Empty;
    }
    classify_text(&utf8_decode_lossy(message))
}

/// The tag and the digest in the reply to a transfer. A reply that is shorter than a tag is refused.
pub fn parse_reply_payload(payload: &[u8]) -> (result: Result<(String, String), &'static str>)
    ensures
        match result {
            Ok((file_tag, hash)) => {
                let first = payload@.take(FILE_TAG_LEN as int);
                let rest = payload@.skip(FILE_TAG_LEN as int);
                &&& payload@.len() >= FILE_TAG_LEN
                &&& file_tag@ == utf8_lossy(first)
                &&& hash@ == utf8_lossy(rest)
                &&& valid_utf8(first) ==> file_tag@ == decode_utf8(first)
                &&& valid_utf8(rest) ==> hash@ == decode_utf8(rest)
            },
            Err(e) => payload@.len() < FILE_TAG_LEN && e@ == "Reply payload too short"@,
        },
        result is Ok <==> payload@.len() >= 22,
        result matches Ok((file_tag, hash)) ==> file_tag@ == utf8_lossy(payload@.take(22)) && hash@
            == utf8_lossy(payload@.skip(22)),
{
    if payload.len() < FILE_TAG_LEN {
        return Err("Reply payload too short");
    }
    let first: &[u8] = slice_subrange(payload, 0, FILE_TAG_LEN);
    let rest: &[u8] = slice_subrange(payload, FILE_TAG_LEN, payload.len());
    assert(first@ =~= payload@.take(FILE_TAG_LEN as int));
    assert(rest@ =~= payload@.skip(FILE_TAG_LEN as int));
    Ok((utf8_decode_lossy(first), utf8_decode_lossy(rest)))
}

// ---------------------------------------------------------------------------------------------
// Durations
// ---------------------------------------------------------------------------------------------

/// A duration in words: minutes and seconds, or under a minute seconds and milliseconds.
pub open spec fn duration_text(secs: nat, millis: nat) -> Seq<char> {
    if secs >= 60 {
        decimal(secs / 60) + "m "@ + padded(secs % 60, 2) + "s"@
    } else {
        decimal(secs) + "."@ + padded(millis, 3) + "s"@
    }
}

/// A duration in words, of whole seconds and the milliseconds beyond them.
pub fn format_duration(secs: u64, millis: u32) -> (s: String)
    ensures
        s@ == duration_text(secs as nat, millis as nat),
{
    let minutes: u64 = secs / 60;
    let seconds: u64 = secs % 60;
    if minutes > 0 {
        let mut s = joined(&decimal_of(minutes), "m ");
        s.push_str(&padded_of(seconds, 2));
        s.push_str("s");
        s
    } else {
        let mut s = joined(&decimal_of(seconds), ".");
        s.push_str(&padded_of(millis as u64, 3));
        s.push_str("s");
        s
    }
}

// ---------------------------------------------------------------------------------------------
// What holds of it
// ---------------------------------------------------------------------------------------------

/// A file of up to 2^53 bytes has a chunk for every 65536 bytes, and one for the rest.
pub proof fn law_chunks_of_64_kib(full: nat, rest: nat)
    requires
        0 < rest <= 65536,
        full * 65536 + rest <= 0x20_0000_0000_0000,
    ensures
        chunks_of(full * 65536 + rest) == full + 1,
        chunks_of(0) == 0,
{
    crate::rounding::lemma_small_is_double(full * 65536 + rest);
    crate::rounding::lemma_small_is_double(0);
}

/// A handshake is the index 2^32 - 1, fourteen zeros, and the tag.
pub proof fn law_handshake_bytes(file_tag: Seq<char>)
    ensures
        ({
            let s = handshake_bytes(file_tag);
            &&& s.len() == 18 + encode_utf8(file_tag).len()
            &&& forall|i: int| 0 <= i < 4 ==> #[trigger] s[i] == 255
            &&& forall|i: int| 4 <= i < 18 ==> #[trigger] s[i] == 0
            &&& s.skip(18) == encode_utf8(file_tag)
        }),
{
    reveal_with_fuel(be_bytes, 9);
    let s = handshake_bytes(file_tag);
    crate::wire::lemma_be_bytes_len(0xFFFF_FFFF, 4);
    crate::wire::lemma_be_bytes_len(0, 4);
    crate::wire::lemma_be_bytes_len(0, 8);
    crate::wire::lemma_be_bytes_len(0, 2);
    assert(be_bytes(0xFFFF_FFFF, 4) =~= seq![255u8, 255, 255, 255]);
    assert(be_bytes(0, 4) =~= seq![0u8, 0, 0, 0]);
    assert(be_bytes(0, 8) =~= seq![0u8, 0, 0, 0, 0, 0, 0, 0]);
    assert(be_bytes(0, 2) =~= seq![0u8, 0]);
    assert(s.skip(18) =~= encode_utf8(file_tag));
}

/// A tag is made of letters and digits, all of them and nothing else: the large letters come first, then
/// the small ones, then the digits.
pub proof fn law_alphabet(c: char, k: int)
    ensures
        alphabet().contains(c) <==> 'A' <= c <= 'Z' || 'a' <= c <= 'z' || '0' <= c <= '9',
        alphabet().len() == 62,
        0 <= k < 26 ==> alphabet()[k] as int == 65 + k,
        26 <= k < 52 ==> alphabet()[k] as int == 97 + (k - 26),
        52 <= k < 62 ==> alphabet()[k] as int == 48 + (k - 52),
{
    reveal_strlit("ABCDEFGHIJKLMNOPQRSTUVWXYZabcdefghijklmnopqrstuvwxyz0123456789");
    let n = c as int;
    let at = if 'A' <= c <= 'Z' {
        n - 65
    } else if 'a' <= c <= 'z' {
        n - 71
    } else {
        n + 4
    };
    if 'A' <= c <= 'Z' || 'a' <= c <= 'z' || '0' <= c <= '9' {
        assert(alphabet()[at] == c);
    }
    if alphabet().contains(c) {
        let i = choose|i: int| 0 <= i < alphabet().len() && alphabet()[i] == c;
        assert(0 <= i < 62 && alphabet()[i] == c);
    }
}

/// A recipient is ready that answers with `READY:` and the tag of the transfer, whatever follows; one that
/// answers with anything else is not.
pub proof fn law_ready_answer(file_tag: Seq<char>, rest: Seq<char>, text: Seq<char>)
    ensures
        ready_prefix(file_tag).is_prefix_of("READY:"@ + file_tag + rest),
        ready_prefix(file_tag).is_prefix_of(text) <==> text.len() >= 6 + file_tag.len() && text.take(
            6,
        ) == "READY:"@ && text.subrange(6, 6 + file_tag.len() as int) == file_tag,
{
    reveal_strlit("READY:");
    let head = "READY:"@ + file_tag;
    assert(("READY:"@ + file_tag + rest).subrange(0, head.len() as int) =~= head);
    if head.is_prefix_of(text) {
        assert(text.take(6) =~= head.take(6));
        assert(head.take(6) =~= "READY:"@);
        assert(text.subrange(6, 6 + file_tag.len() as int) =~= file_tag) by {
            assert forall|i: int| 0 <= i < file_tag.len() implies text[6 + i] == file_tag[i] by {
                assert(text.subrange(0, head.len() as int)[6 + i] == head[6 + i]);
            }
        }
    }
    if text.len() >= 6 + file_tag.len() && text.take(6) == "READY:"@ && text.subrange(
        6,
        6 + file_tag.len() as int,
    ) == file_tag {
        assert forall|i: int| 0 <= i < head.len() implies text[i] == head[i] by {
            if i < 6 {
                assert(text.take(6)[i] == text[i]);
            } else {
                assert(text.subrange(6, 6 + file_tag.len() as int)[i - 6] == text[i]);
            }
        }
        assert(text.subrange(0, head.len() as int) =~= head);
    }
}

/// `RESEND:` and a number ask for the chunk with that number; with anything else behind it no chunk can be
/// told. All other texts are replies.
pub proof fn law_requests_for_chunks(n: nat, rest: Seq<char>, i: int, text: Seq<char>)
    ensures
        n <= usize::MAX ==> incoming_text("RESEND:"@ + decimal(n)) == Incoming::Resend(n as usize),
        n > usize::MAX ==> incoming_text("RESEND:"@ + decimal(n)) == Incoming::BadResend,
        0 <= i < rest.len() && !('0' <= rest[i] <= '9') && !(i == 0 && rest[i] == '+')
            ==> incoming_text("RESEND:"@ + rest) == Incoming::BadResend,
        incoming_text("RESEND:"@) == Incoming::BadResend,
        incoming_text(text) == Incoming::Reply <==> !"RESEND:"@.is_prefix_of(text),
{
    let head = "RESEND:"@;
    reveal_strlit("RESEND:");
    let whole = head + decimal(n);
    assert(whole.subrange(0, head.len() as int) =~= head);
    assert(whole.skip(head.len() as int) =~= decimal(n));
    crate::text_laws::law_numerals_are_read(n, usize::MAX as nat, Seq::empty());
    assert(Seq::<char>::empty() + decimal(n) =~= decimal(n));
    let other = head + rest;
    assert(other.subrange(0, head.len() as int) =~= head);
    assert(other.skip(head.len() as int) =~= rest);
    if 0 <= i < rest.len() && !('0' <= rest[i] <= '9') && !(i == 0 && rest[i] == '+') {
        crate::text_laws::law_no_numerals(rest, usize::MAX as nat, i);
    }
    assert(head.subrange(0, head.len() as int) =~= head);
    assert(head.skip(head.len() as int) =~= Seq::empty());
    crate::text_laws::law_no_numerals(Seq::empty(), usize::MAX as nat, 0);
}

/// A message without content is told from all others, which are what their text is.
pub proof fn law_incoming_messages(message: Seq<u8>)
    ensures
        incoming(message) == Incoming::Empty <==> message.len() == 0,
        message.len() > 0 ==> incoming(message) == incoming_text(utf8_lossy(message)),
{
}

/// Whether a text is made of the digits of a number, `width` of them.
pub open spec fn spells(s: Seq<char>, n: nat, width: nat) -> bool {
    &&& s.len() == width
    &&& forall|i: int| 0 <= i < s.len() ==> '0' <= #[trigger] s[i] <= '9'
    &&& crate::text::digits_value(s) == n
}

proof fn lemma_short_numeral(n: nat, width: nat)
    requires
        width == 2 && n < 100 || width == 3 && n < 1000,
    ensures
        spells(padded(n, width), n, width),
{
    if n >= 10 {
        assert(decimal(n).len() == decimal(n / 10).len() + 1);
        if n / 10 >= 10 {
            assert(decimal(n / 10).len() == decimal(n / 10 / 10).len() + 1);
            assert(n / 10 / 10 < 10);
            assert(decimal(n / 10 / 10).len() == 1);
        } else {
            assert(decimal(n / 10).len() == 1);
        }
    } else {
        assert(decimal(n).len() == 1);
    }
    crate::text_laws::law_padded_numerals(n, width);
    crate::text_laws::lemma_decimal(n);
    let p = padded(n, width);
    let zeros = p.len() - decimal(n).len();
    assert(decimal(n).len() <= width);
    assert forall|i: int| 0 <= i < p.len() implies '0' <= #[trigger] p[i] <= '9' by {
        if i >= zeros {
            assert(p.skip(zeros)[i - zeros] == p[i]);
            assert(crate::text::is_digit(decimal(n)[i - zeros]));
        }
    }
}

/// From a minute on a duration is told in minutes and two digits for the seconds, below it in seconds and
/// three digits for the milliseconds.
pub proof fn law_durations(minutes: nat, seconds: nat, millis: nat)
    requires
        seconds < 60,
        millis < 1000,
    ensures
        minutes > 0 ==> exists|two: Seq<char>| #[trigger] spells(two, seconds, 2) && duration_text(
            60 * minutes + seconds,
            millis,
        ) == decimal(minutes) + "m "@ + two + "s"@,
        exists|three: Seq<char>| #[trigger] spells(three, millis, 3) && duration_text(seconds, millis)
            == decimal(seconds) + "."@ + three + "s"@,
{
    lemma_short_numeral(seconds, 2);
    lemma_short_numeral(millis, 3);
    let secs = 60 * minutes + seconds;
    assert(secs / 60 == minutes && secs % 60 == seconds);
}

/// Whatever the numbers are, the header of a chunk has a place for each: four bytes for the low-order part
/// of the index and of the number of chunks, eight for the size, two for the low-order part of the length of
/// the name; then come the whole name and the tag, and behind the header the data.
pub proof fn law_chunk_header(
    chunk_idx: nat,
    total_chunks: nat,
    file_size: u64,
    filename: Seq<char>,
    file_tag: Seq<char>,
    data: Seq<u8>,
)
    ensures
        ({
            let s = header_bytes(chunk_idx, total_chunks, file_size as nat, filename, file_tag) + data;
            let name_end = 18 + encode_utf8(filename).len() as int;
            let tag_end = name_end + encode_utf8(file_tag).len() as int;
            &&& s.len() == tag_end + data.len()
            &&& be_value(s.subrange(0, 4)) == chunk_idx % 0x1_0000_0000
            &&& be_value(s.subrange(4, 8)) == total_chunks % 0x1_0000_0000
            &&& be_value(s.subrange(8, 16)) == file_size
            &&& be_value(s.subrange(16, 18)) == encode_utf8(filename).len() % 0x1_0000
            &&& s.subrange(18, name_end) == encode_utf8(filename)
            &&& s.subrange(name_end, tag_end) == encode_utf8(file_tag)
            &&& s.skip(tag_end) == data
        }),
{
    let s = header_bytes(chunk_idx, total_chunks, file_size as nat, filename, file_tag) + data;
    let name = encode_utf8(filename);
    let tag = encode_utf8(file_tag);
    crate::wire::lemma_be_bytes_len(chunk_idx, 4);
    crate::wire::lemma_be_bytes_len(total_chunks, 4);
    crate::wire::lemma_be_bytes_len(file_size as nat, 8);
    crate::wire::lemma_be_bytes_len(name.len(), 2);
    crate::wire::law_low_order_bytes(chunk_idx, 4);
    crate::wire::law_low_order_bytes(total_chunks, 4);
    crate::wire::law_low_order_bytes(file_size as nat, 8);
    crate::wire::law_low_order_bytes(name.len(), 2);
    reveal_with_fuel(pow, 9);
    assert(pow(256, 2) == 0x1_0000);
    assert(pow(256, 4) == 0x1_0000_0000);
    assert(pow(256, 8) == 0x1_0000_0000_0000_0000);
    assert(s.subrange(0, 4) =~= be_bytes(chunk_idx, 4));
    assert(s.subrange(4, 8) =~= be_bytes(total_chunks, 4));
    assert(s.subrange(8, 16) =~= be_bytes(file_size as nat, 8));
    assert(s.subrange(16, 18) =~= be_bytes(name.len(), 2));
    assert(s.subrange(18, 18 + name.len() as int) =~= name);
    assert(s.subrange(18 + name.len() as int, 18 + name.len() as int + tag.len() as int) =~= tag);
    assert(s.skip(18 + name.len() as int + tag.len() as int) =~= data);
}

/// The number of chunks of any file is the smallest one that holds its size as a double.
pub proof fn law_chunks_of_large_files(file_size: nat)
    ensures
        chunks_of(file_size) * 65536 >= nearest_double(file_size),
        nearest_double(file_size) > 0 ==> (chunks_of(file_size) - 1) * 65536 < nearest_double(
            file_size,
        ),
        nearest_double(file_size) == 0 ==> chunks_of(file_size) == 0,
{
}

} // verus!
