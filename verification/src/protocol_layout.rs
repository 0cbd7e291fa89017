//! Where the fields of a message lie in its bytes, and what is said of bytes that are no message.
use vstd::prelude::*;
use vstd::utf8::{
    decode_utf8, encode_utf8, encode_utf8_decode_utf8, encode_utf8_valid_utf8, valid_utf8,
};
use crate::protocol::{
    bool_bytes, counted, decode, encode, parse_bool, parse_bytes, parse_fixed, parse_string, parse_u32,
    parse_u32s, parse_u64, string_bytes, u32s_bytes, BinaryMessage, FileChunk, FileInfo, Message, ProtocolError,
    ResendRequest, TransferAccept, TransferComplete, TransferOffer,
};
use crate::protocol_laws::{fits, text_fits};
use crate::wire::{le_bytes, le_value, lemma_le_bytes_len};

verus! {

/// The number in the four bytes from `at` on, the low-order one first.
pub open spec fn u32_at(s: Seq<u8>, at: int) -> int {
    s[at] + 256 * (s[at + 1] + 256 * (s[at + 2] + 256 * s[at + 3]))
}

/// The number in the eight bytes from `at` on, the low-order one first.
pub open spec fn u64_at(s: Seq<u8>, at: int) -> int {
    s[at] + 256 * (s[at + 1] + 256 * (s[at + 2] + 256 * (s[at + 3] + 256 * (s[at + 4] + 256 * (s[at
        + 5] + 256 * (s[at + 6] + 256 * s[at + 7]))))))
}

/// Whether some bytes lie from `at` on, with their number before them.
pub open spec fn bytes_at(s: Seq<u8>, at: int, bytes: Seq<u8>) -> bool {
    u32_at(s, at) == bytes.len() && s.subrange(at + 4, at + 4 + bytes.len()) == bytes
}

/// The length of a text in bytes.
pub open spec fn size_of_text(text: Seq<char>) -> int {
    encode_utf8(text).len() as int
}

proof fn lemma_u32_at(pre: Seq<u8>, v: nat, post: Seq<u8>)
    requires
        v <= u32::MAX,
    ensures
        le_bytes(v, 4).len() == 4,
        u32_at(pre + le_bytes(v, 4) + post, pre.len() as int) == v,
{
    reveal_with_fuel(le_bytes, 5);
    lemma_le_bytes_len(v, 4);
    let s = pre + le_bytes(v, 4) + post;
    let n = pre.len() as int;
    let b = le_bytes(v, 4);
    assert(b =~= seq![
        (v % 256) as u8,
        (v / 256 % 256) as u8,
        (v / 256 / 256 % 256) as u8,
        (v / 256 / 256 / 256 % 256) as u8,
    ]);
    assert(s[n] == b[0] && s[n + 1] == b[1] && s[n + 2] == b[2] && s[n + 3] == b[3]);
}

proof fn lemma_u64_at(pre: Seq<u8>, v: u64, post: Seq<u8>)
    ensures
        le_bytes(v as nat, 8).len() == 8,
        u64_at(pre + le_bytes(v as nat, 8) + post, pre.len() as int) == v,
{
    reveal_with_fuel(le_bytes, 9);
    let w = v as nat;
    lemma_le_bytes_len(w, 8);
    let s = pre + le_bytes(w, 8) + post;
    let n = pre.len() as int;
    let b = le_bytes(w, 8);
    let w1 = w / 256;
    let w2 = w1 / 256;
    let w3 = w2 / 256;
    let w4 = w3 / 256;
    let w5 = w4 / 256;
    let w6 = w5 / 256;
    let w7 = w6 / 256;
    assert(b =~= seq![
        (w % 256) as u8,
        (w1 % 256) as u8,
        (w2 % 256) as u8,
        (w3 % 256) as u8,
        (w4 % 256) as u8,
        (w5 % 256) as u8,
        (w6 % 256) as u8,
        (w7 % 256) as u8,
    ]);
    assert(w7 < 256);
    assert(s[n] == b[0] && s[n + 1] == b[1] && s[n + 2] == b[2] && s[n + 3] == b[3] && s[n + 4] == b[4]
        && s[n + 5] == b[5] && s[n + 6] == b[6] && s[n + 7] == b[7]);
}

proof fn lemma_bytes_at(pre: Seq<u8>, b: Seq<u8>, post: Seq<u8>)
    requires
        b.len() <= u32::MAX,
    ensures
        counted(b).len() == 4 + b.len(),
        bytes_at(pre + counted(b) + post, pre.len() as int, b),
{
    let s = pre + counted(b) + post;
    assert(s =~= pre + le_bytes(b.len(), 4) + (b + post));
    lemma_u32_at(pre, b.len(), b + post);
    assert(s.subrange(pre.len() as int + 4, pre.len() as int + 4 + b.len()) =~= b);
}

/// An announcement is the byte 1, the name, the size in eight bytes, the number of chunks in four, and the
/// address.
pub proof fn law_layout_of_announcements(
    name: Seq<char>,
    size: u64,
    chunks: u32,
    sender_address: Seq<char>,
)
    requires
        text_fits(name),
        text_fits(sender_address),
    ensures
        ({
            let s = encode(Message::FileInfo { name, size, chunks, sender_address });
            let n = size_of_text(name);
            &&& s.len() == 21 + n + size_of_text(sender_address)
            &&& s[0] == 1
            &&& bytes_at(s, 1, encode_utf8(name))
            &&& u64_at(s, 5 + n) == size
            &&& u32_at(s, 13 + n) == chunks
            &&& bytes_at(s, 17 + n, encode_utf8(sender_address))
        }),
{
    let s = encode(Message::FileInfo { name, size, chunks, sender_address });
    let none = Seq::<u8>::empty();
    let tag = seq![1u8];
    let a = tag + string_bytes(name);
    let b = a + le_bytes(size as nat, 8);
    let c = b + le_bytes(chunks as nat, 4);
    let r2 = le_bytes(chunks as nat, 4) + string_bytes(sender_address);
    lemma_bytes_at(tag, encode_utf8(name), le_bytes(size as nat, 8) + r2);
    lemma_u64_at(a, size, r2);
    lemma_u32_at(b, chunks as nat, string_bytes(sender_address));
    lemma_bytes_at(c, encode_utf8(sender_address), none);
    assert(s =~= tag + counted(encode_utf8(name)) + (le_bytes(size as nat, 8) + r2));
    assert(s =~= a + le_bytes(size as nat, 8) + r2);
    assert(s =~= b + le_bytes(chunks as nat, 4) + string_bytes(sender_address));
    assert(s =~= c + counted(encode_utf8(sender_address)) + none);
}

/// A chunk is the byte 2, its index and the number of chunks in four bytes each, the data, and a byte that
/// is 1 for the last chunk and 0 for others.
pub proof fn law_layout_of_chunks(index: u32, total: u32, data: Seq<u8>, is_last: bool)
    requires
        data.len() <= u32::MAX,
    ensures
        ({
            let s = encode(Message::FileChunk { index, total, data, is_last });
            &&& s.len() == 14 + data.len()
            &&& s[0] == 2
            &&& u32_at(s, 1) == index
            &&& u32_at(s, 5) == total
            &&& bytes_at(s, 9, data)
            &&& s.last() == if is_last {
                1u8
            } else {
                0u8
            }
        }),
{
    let s = encode(Message::FileChunk { index, total, data, is_last });
    let tag = seq![2u8];
    let a = tag + le_bytes(index as nat, 4);
    let b = a + le_bytes(total as nat, 4);
    let r1 = le_bytes(total as nat, 4) + (counted(data) + bool_bytes(is_last));
    lemma_u32_at(tag, index as nat, r1);
    lemma_u32_at(a, total as nat, counted(data) + bool_bytes(is_last));
    lemma_bytes_at(b, data, bool_bytes(is_last));
    assert(s =~= tag + le_bytes(index as nat, 4) + r1);
    assert(s =~= a + le_bytes(total as nat, 4) + (counted(data) + bool_bytes(is_last)));
    assert(s =~= b + counted(data) + bool_bytes(is_last));
}

proof fn lemma_numbers_at(pre: Seq<u8>, values: Seq<u32>, i: int)
    requires
        0 <= i < values.len(),
    ensures
        u32s_bytes(values).len() == 4 * values.len(),
        u32_at(pre + u32s_bytes(values), pre.len() + 4 * i) == values[i],
    decreases values.len(),
{
    let before = values.drop_last();
    let front = pre + u32s_bytes(before);
    lemma_numbers_len(before);
    lemma_numbers_len(values);
    let none = Seq::<u8>::empty();
    lemma_u32_at(front, values.last() as nat, none);
    assert(pre + u32s_bytes(values) =~= front + le_bytes(values.last() as nat, 4) + none);
    if i < before.len() {
        lemma_numbers_at(pre, before, i);
        let n = pre.len() + 4 * i;
        let s = pre + u32s_bytes(values);
        assert(s[n] == front[n] && s[n + 1] == front[n + 1] && s[n + 2] == front[n + 2] && s[n + 3]
            == front[n + 3]);
    }
}

proof fn lemma_numbers_len(values: Seq<u32>)
    ensures
        u32s_bytes(values).len() == 4 * values.len(),
    decreases values.len(),
{
    if values.len() > 0 {
        lemma_numbers_len(values.drop_last());
        lemma_le_bytes_len(values.last() as nat, 4);
    }
}

/// A request for chunks is the byte 3, the name, the number of indices in four bytes, and each index in
/// four.
pub proof fn law_layout_of_requests(file_name: Seq<char>, missing_indices: Seq<u32>, i: int)
    requires
        text_fits(file_name),
        missing_indices.len() <= u32::MAX,
    ensures
        ({
            let s = encode(Message::ResendRequest { file_name, missing_indices });
            let n = size_of_text(file_name);
            &&& s.len() == 9 + n + 4 * missing_indices.len()
            &&& s[0] == 3
            &&& bytes_at(s, 1, encode_utf8(file_name))
            &&& u32_at(s, 5 + n) == missing_indices.len()
            &&& 0 <= i < missing_indices.len() ==> u32_at(s, 9 + n + 4 * i) == missing_indices[i]
        }),
{
    let s = encode(Message::ResendRequest { file_name, missing_indices });
    let tag = seq![3u8];
    let a = tag + string_bytes(file_name);
    let b = a + le_bytes(missing_indices.len(), 4);
    let list = u32s_bytes(missing_indices);
    lemma_numbers_len(missing_indices);
    lemma_bytes_at(tag, encode_utf8(file_name), le_bytes(missing_indices.len(), 4) + list);
    lemma_u32_at(a, missing_indices.len(), list);
    assert(s =~= tag + counted(encode_utf8(file_name)) + (le_bytes(missing_indices.len(), 4) + list));
    assert(s =~= a + le_bytes(missing_indices.len(), 4) + list);
    assert(s =~= b + list);
    if 0 <= i < missing_indices.len() {
        lemma_numbers_at(b, missing_indices, i);
    }
}

/// A notice is the byte 4, the name, and the digest.
pub proof fn law_layout_of_notices(file_name: Seq<char>, ripemd160_hash: Seq<u8>)
    requires
        text_fits(file_name),
    ensures
        ({
            let s = encode(Message::TransferComplete { file_name, ripemd160_hash });
            let n = size_of_text(file_name);
            &&& s.len() == 5 + n + ripemd160_hash.len()
            &&& s[0] == 4
            &&& bytes_at(s, 1, encode_utf8(file_name))
            &&& s.skip(5 + n) == ripemd160_hash
        }),
{
    let s = encode(Message::TransferComplete { file_name, ripemd160_hash });
    let tag = seq![4u8];
    lemma_bytes_at(tag, encode_utf8(file_name), ripemd160_hash);
    assert(s =~= tag + counted(encode_utf8(file_name)) + ripemd160_hash);
    assert(s.skip(5 + size_of_text(file_name)) =~= ripemd160_hash);
}

/// An offer is the byte 5, the name, the size in eight bytes, and the address.
pub proof fn law_layout_of_offers(file_name: Seq<char>, size: u64, sender_address: Seq<char>)
    requires
        text_fits(file_name),
        text_fits(sender_address),
    ensures
        ({
            let s = encode(Message::TransferOffer { file_name, size, sender_address });
            let n = size_of_text(file_name);
            &&& s.len() == 17 + n + size_of_text(sender_address)
            &&& s[0] == 5
            &&& bytes_at(s, 1, encode_utf8(file_name))
            &&& u64_at(s, 5 + n) == size
            &&& bytes_at(s, 13 + n, encode_utf8(sender_address))
        }),
{
    let s = encode(Message::TransferOffer { file_name, size, sender_address });
    let none = Seq::<u8>::empty();
    let tag = seq![5u8];
    let a = tag + string_bytes(file_name);
    let b = a + le_bytes(size as nat, 8);
    let r1 = le_bytes(size as nat, 8) + string_bytes(sender_address);
    lemma_bytes_at(tag, encode_utf8(file_name), r1);
    lemma_u64_at(a, size, string_bytes(sender_address));
    lemma_bytes_at(b, encode_utf8(sender_address), none);
    assert(s =~= tag + counted(encode_utf8(file_name)) + r1);
    assert(s =~= a + le_bytes(size as nat, 8) + string_bytes(sender_address));
    assert(s =~= b + counted(encode_utf8(sender_address)) + none);
}

/// An answer to an offer is the byte 6, the name, and a byte that is 1 for a yes and 0 for a no.
pub proof fn law_layout_of_answers(file_name: Seq<char>, accepted: bool)
    requires
        text_fits(file_name),
    ensures
        ({
            let s = encode(Message::TransferAccept { file_name, accepted });
            let n = size_of_text(file_name);
            &&& s.len() == 6 + n
            &&& s[0] == 6
            &&& bytes_at(s, 1, encode_utf8(file_name))
            &&& s.last() == if accepted {
                1u8
            } else {
                0u8
            }
        }),
{
    let s = encode(Message::TransferAccept { file_name, accepted });
    let tag = seq![6u8];
    lemma_bytes_at(tag, encode_utf8(file_name), bool_bytes(accepted));
    assert(s =~= tag + counted(encode_utf8(file_name)) + bool_bytes(accepted));
}

// ---------------------------------------------------------------------------------------------
// What is wrong with bytes
// ---------------------------------------------------------------------------------------------

/// No bytes are an empty message, and a first byte that no type has is told as it is. No other bytes are
/// refused for these reasons.
pub proof fn law_unknown_messages(data: Seq<u8>)
    ensures
        decode(data) == Err::<Message, ProtocolError>(ProtocolError::EmptyMessage) <==> data.len()
            == 0,
        data.len() > 0 && !(1 <= data[0] <= 6) ==> decode(data) == Err::<Message, ProtocolError>(
            ProtocolError::UnknownType(data[0]),
        ),
        data.len() > 0 && 1 <= data[0] <= 6 ==> !(decode(data) matches Err(
            ProtocolError::UnknownType(_),
        )),
{
}

/// A text that is not UTF-8 is refused as such, in whichever message it is the first field.
pub proof fn law_invalid_texts(kind: u8, bytes: Seq<u8>, rest: Seq<u8>)
    requires
        kind == 1 || kind == 3 || kind == 4 || kind == 5 || kind == 6,
        bytes.len() <= u32::MAX,
        !valid_utf8(bytes),
    ensures
        decode(seq![kind] + counted(bytes) + rest) == Err::<Message, ProtocolError>(
            ProtocolError::InvalidUtf8,
        ),
{
    let tag = seq![kind];
    let s = tag + counted(bytes) + rest;
    crate::protocol_laws::lemma_field_bytes(tag, bytes, rest);
    assert(s.subrange(5, 5 + bytes.len() as int) =~= bytes);
    assert(s[0] == kind);
}

proof fn lemma_kept_u32(s: Seq<u8>, len: int, at: int)
    requires
        0 <= at,
        at + 4 <= len <= s.len(),
    ensures
        parse_u32(s.take(len), at) == parse_u32(s, at),
{
    assert(s.take(len).subrange(at, at + 4) =~= s.subrange(at, at + 4));
}

proof fn lemma_kept_u64(s: Seq<u8>, len: int, at: int)
    requires
        0 <= at,
        at + 8 <= len <= s.len(),
    ensures
        parse_u64(s.take(len), at) == parse_u64(s, at),
{
    assert(s.take(len).subrange(at, at + 8) =~= s.subrange(at, at + 8));
}

/// What is read of a text at `at` where the bytes are cut at `len`.
proof fn lemma_cut_string(s: Seq<u8>, len: int, at: int, text: Seq<char>)
    requires
        0 <= at <= len <= s.len(),
        parse_string(s, at) == Ok::<(Seq<char>, int), ProtocolError>(
            (text, at + 4 + size_of_text(text)),
        ),
    ensures
        parse_string(s.take(len), at) == if len < at + 4 {
            Err(ProtocolError::UnderflowU32)
        } else if len < at + 4 + size_of_text(text) {
            Err(ProtocolError::UnderflowString)
        } else {
            Ok((text, at + 4 + size_of_text(text)))
        },
{
    if len >= at + 4 {
        lemma_kept_u32(s, len, at);
        let end = at + 4 + size_of_text(text);
        if len >= end {
            assert(s.take(len).subrange(at + 4, end) =~= s.subrange(at + 4, end));
        }
    }
}

/// The part of a message in which its bytes end, where they are cut short.
pub open spec fn cut_in(message: Message, len: int) -> ProtocolError {
    match message {
        Message::FileInfo { name, sender_address, .. } => {
            let n = size_of_text(name);
            if len < 5 {
                ProtocolError::UnderflowU32
            } else if len < 5 + n {
                ProtocolError::UnderflowString
            } else if len < 13 + n {
                ProtocolError::UnderflowU64
            } else if len < 21 + n {
                ProtocolError::UnderflowU32
            } else {
                ProtocolError::UnderflowString
            }
        },
        Message::FileChunk { data, .. } => if len < 13 {
            ProtocolError::UnderflowU32
        } else if len < 13 + data.len() {
            ProtocolError::UnderflowBytes
        } else {
            ProtocolError::UnderflowBool
        },
        Message::ResendRequest { file_name, .. } => {
            if 5 <= len < 5 + size_of_text(file_name) {
                ProtocolError::UnderflowString
            } else {
                ProtocolError::UnderflowU32
            }
        },
        Message::TransferComplete { file_name, .. } => if len < 5 {
            ProtocolError::UnderflowU32
        } else if len < 5 + size_of_text(file_name) {
            ProtocolError::UnderflowString
        } else {
            ProtocolError::UnderflowFixed
        },
        Message::TransferOffer { file_name, .. } => {
            let n = size_of_text(file_name);
            if len < 5 {
                ProtocolError::UnderflowU32
            } else if len < 5 + n {
                ProtocolError::UnderflowString
            } else if len < 13 + n {
                ProtocolError::UnderflowU64
            } else if len < 17 + n {
                ProtocolError::UnderflowU32
            } else {
                ProtocolError::UnderflowString
            }
        },
        Message::TransferAccept { file_name, .. } => if len < 5 {
            ProtocolError::UnderflowU32
        } else if len < 5 + size_of_text(file_name) {
            ProtocolError::UnderflowString
        } else {
            ProtocolError::UnderflowBool
        },
    }
}

proof fn lemma_cut_file_info(name: Seq<char>, size: u64, chunks: u32, sender_address: Seq<char>, len: int)
    requires
        fits(Message::FileInfo { name, size, chunks, sender_address }),
        0 < len < encode(Message::FileInfo { name, size, chunks, sender_address }).len(),
    ensures
        decode(encode(Message::FileInfo { name, size, chunks, sender_address }).take(len)) == Err::<Message, ProtocolError>(
            cut_in(Message::FileInfo { name, size, chunks, sender_address }, len),
        ),
{
    let s = encode(Message::FileInfo { name, size, chunks, sender_address });
    let cut = s.take(len);
    let n = size_of_text(name);
    law_layout_of_announcements(name, size, chunks, sender_address);
    lemma_first_text(s, name, len);
    if len >= 13 + n {
        lemma_kept_u64(s, len, 5 + n);
    }
    if len >= 17 + n {
        lemma_kept_u32(s, len, 13 + n);
        lemma_text_there(s, 17 + n, sender_address);
        lemma_cut_string(s, len, 17 + n, sender_address);
    }
    assert(cut[0] == s[0]);
}

proof fn lemma_cut_file_chunk(index: u32, total: u32, data: Seq<u8>, is_last: bool, len: int)
    requires
        fits(Message::FileChunk { index, total, data, is_last }),
        0 < len < encode(Message::FileChunk { index, total, data, is_last }).len(),
    ensures
        decode(encode(Message::FileChunk { index, total, data, is_last }).take(len)) == Err::<Message, ProtocolError>(
            cut_in(Message::FileChunk { index, total, data, is_last }, len),
        ),
{
    let s = encode(Message::FileChunk { index, total, data, is_last });
    let cut = s.take(len);
    law_layout_of_chunks(index, total, data, is_last);
    if len >= 13 {
        lemma_kept_u32(s, len, 9);
        lemma_number_there(s, 9);
    }
    assert(cut[0] == s[0]);
}

proof fn lemma_cut_resend_request(file_name: Seq<char>, missing_indices: Seq<u32>, len: int)
    requires
        fits(Message::ResendRequest { file_name, missing_indices }),
        0 < len < encode(Message::ResendRequest { file_name, missing_indices }).len(),
    ensures
        decode(encode(Message::ResendRequest { file_name, missing_indices }).take(len)) == Err::<Message, ProtocolError>(
            cut_in(Message::ResendRequest { file_name, missing_indices }, len),
        ),
{
    let s = encode(Message::ResendRequest { file_name, missing_indices });
    let cut = s.take(len);
    let n = size_of_text(file_name);
    law_layout_of_requests(file_name, missing_indices, 0);
    lemma_first_text(s, file_name, len);
    if len >= 9 + n {
        lemma_kept_u32(s, len, 5 + n);
        lemma_number_there(s, 5 + n);
        assert(parse_u32s(cut, 9 + n, missing_indices.len() as int) == Err::<
            Seq<u32>,
            ProtocolError,
        >(ProtocolError::UnderflowU32));
    }
    assert(cut[0] == s[0]);
}

proof fn lemma_cut_transfer_complete(file_name: Seq<char>, ripemd160_hash: Seq<u8>, len: int)
    requires
        fits(Message::TransferComplete { file_name, ripemd160_hash }),
        0 < len < encode(Message::TransferComplete { file_name, ripemd160_hash }).len(),
    ensures
        decode(encode(Message::TransferComplete { file_name, ripemd160_hash }).take(len)) == Err::<Message, ProtocolError>(
            cut_in(Message::TransferComplete { file_name, ripemd160_hash }, len),
        ),
{
    let s = encode(Message::TransferComplete { file_name, ripemd160_hash });
    let cut = s.take(len);
    law_layout_of_notices(file_name, ripemd160_hash);
    lemma_first_text(s, file_name, len);
    assert(cut[0] == s[0]);
}

proof fn lemma_cut_transfer_offer(file_name: Seq<char>, size: u64, sender_address: Seq<char>, len: int)
    requires
        fits(Message::TransferOffer { file_name, size, sender_address }),
        0 < len < encode(Message::TransferOffer { file_name, size, sender_address }).len(),
    ensures
        decode(encode(Message::TransferOffer { file_name, size, sender_address }).take(len)) == Err::<Message, ProtocolError>(
            cut_in(Message::TransferOffer { file_name, size, sender_address }, len),
        ),
{
    let s = encode(Message::TransferOffer { file_name, size, sender_address });
    let cut = s.take(len);
    let n = size_of_text(file_name);
    law_layout_of_offers(file_name, size, sender_address);
    lemma_first_text(s, file_name, len);
    if len >= 13 + n {
        lemma_kept_u64(s, len, 5 + n);
        lemma_text_there(s, 13 + n, sender_address);
        lemma_cut_string(s, len, 13 + n, sender_address);
    }
    assert(cut[0] == s[0]);
}

proof fn lemma_cut_transfer_accept(file_name: Seq<char>, accepted: bool, len: int)
    requires
        fits(Message::TransferAccept { file_name, accepted }),
        0 < len < encode(Message::TransferAccept { file_name, accepted }).len(),
    ensures
        decode(encode(Message::TransferAccept { file_name, accepted }).take(len)) == Err::<Message, ProtocolError>(
            cut_in(Message::TransferAccept { file_name, accepted }, len),
        ),
{
    let s = encode(Message::TransferAccept { file_name, accepted });
    let cut = s.take(len);
    let n = size_of_text(file_name);
    law_layout_of_answers(file_name, accepted);
    lemma_first_text(s, file_name, len);
    if len >= 5 + n {
        assert(parse_bool(cut, 5 + n) is Err);
    }
    assert(cut[0] == s[0]);
}

/// Of a message that was cut short it is told in what its bytes end: within a number, a text, a byte
/// string or a digest, or before a flag.
pub proof fn law_cut_message_is_told(message: Message, len: int)
    requires
        fits(message),
        0 < len < encode(message).len(),
    ensures
        decode(encode(message).take(len)) == Err::<Message, ProtocolError>(cut_in(message, len)),
{
    match message {
        Message::FileInfo { name, size, chunks, sender_address } => {
            lemma_cut_file_info(name, size, chunks, sender_address, len);
        },
        Message::FileChunk { index, total, data, is_last } => {
            lemma_cut_file_chunk(index, total, data, is_last, len);
        },
        Message::ResendRequest { file_name, missing_indices } => {
            lemma_cut_resend_request(file_name, missing_indices, len);
        },
        Message::TransferComplete { file_name, ripemd160_hash } => {
            lemma_cut_transfer_complete(file_name, ripemd160_hash, len);
        },
        Message::TransferOffer { file_name, size, sender_address } => {
            lemma_cut_transfer_offer(file_name, size, sender_address, len);
        },
        Message::TransferAccept { file_name, accepted } => {
            lemma_cut_transfer_accept(file_name, accepted, len);
        },
    }
}

proof fn lemma_number_there(s: Seq<u8>, at: int)
    requires
        0 <= at,
        at + 4 <= s.len(),
    ensures
        parse_u32(s, at) == Ok::<(u32, int), ProtocolError>((u32_at(s, at) as u32, at + 4)),
{
    reveal_with_fuel(le_value, 5);
    let b = s.subrange(at, at + 4);
    assert(b.drop_first().drop_first().drop_first().drop_first() =~= Seq::empty());
}

proof fn lemma_text_there(s: Seq<u8>, at: int, text: Seq<char>)
    requires
        0 <= at,
        text_fits(text),
        at + 4 + size_of_text(text) <= s.len(),
        bytes_at(s, at, encode_utf8(text)),
    ensures
        parse_string(s, at) == Ok::<(Seq<char>, int), ProtocolError>(
            (text, at + 4 + size_of_text(text)),
        ),
{
    lemma_number_there(s, at);
    encode_utf8_valid_utf8(text);
    encode_utf8_decode_utf8(text);
}

proof fn lemma_first_text(s: Seq<u8>, text: Seq<char>, len: int)
    requires
        text_fits(text),
        1 <= len <= s.len(),
        5 + size_of_text(text) <= s.len(),
        bytes_at(s, 1, encode_utf8(text)),
    ensures
        parse_string(s.take(len), 1) == if len < 5 {
            Err(ProtocolError::UnderflowU32)
        } else if len < 5 + size_of_text(text) {
            Err(ProtocolError::UnderflowString)
        } else {
            Ok((text, 5 + size_of_text(text)))
        },
{
    lemma_text_there(s, 1, text);
    lemma_cut_string(s, len, 1, text);
}

/// A flag is a yes exactly if its byte is not zero.
pub proof fn law_flags(file_name: Seq<char>, flag: u8)
    requires
        text_fits(file_name),
    ensures
        decode(seq![6u8] + string_bytes(file_name) + seq![flag]) == Ok::<Message, ProtocolError>(
            Message::TransferAccept { file_name, accepted: flag != 0 },
        ),
{
    let tag = seq![6u8];
    let s = tag + string_bytes(file_name) + seq![flag];
    lemma_bytes_at(tag, encode_utf8(file_name), seq![flag]);
    lemma_text_there(s, 1, file_name);
    assert(s[0] == 6);
    assert(s[5 + size_of_text(file_name)] == flag);
}

/// What is said of an error tells it from every other one.
pub proof fn law_errors_are_told_apart(first: ProtocolError, second: ProtocolError)
    requires
        first.text() == second.text(),
    ensures
        first == second,
{
    reveal_strlit("Empty message");
    reveal_strlit("Unknown message type: ");
    reveal_strlit("Buffer underflow reading u32");
    reveal_strlit("Buffer underflow reading u64");
    reveal_strlit("Buffer underflow reading string");
    reveal_strlit("Buffer underflow reading bytes");
    reveal_strlit("Buffer underflow reading bool");
    reveal_strlit("Buffer underflow reading fixed bytes");
    reveal_strlit("Invalid UTF-8 in string");
    let (a, b) = (first.text(), second.text());
    assert(a[0] == b[0]);
    assert(a.len() == b.len());
    assert("Empty message"@[0] == 'E');
    assert("Unknown message type: "@[0] == 'U');
    assert("Buffer underflow reading u32"@[0] == 'B');
    assert("Buffer underflow reading u32"@[26] == '3');
    assert("Buffer underflow reading u64"@[26] == '6');
    assert("Buffer underflow reading bool"@[26] == 'o');
    assert("Buffer underflow reading string"@[0] == 'B');
    assert("Buffer underflow reading bytes"@[0] == 'B');
    assert("Buffer underflow reading fixed bytes"@[0] == 'B');
    assert("Invalid UTF-8 in string"@[0] == 'I');
    if a.len() > 26 {
        assert(a[26] == b[26]);
    }
    if first is UnknownType && second is UnknownType {
        let head = "Unknown message type: "@;
        let (m, n) = (first->UnknownType_0 as nat, second->UnknownType_0 as nat);
        assert((head + crate::text::decimal(m)).skip(head.len() as int)
            =~= crate::text::decimal(m));
        assert((head + crate::text::decimal(n)).skip(head.len() as int)
            =~= crate::text::decimal(n));
        crate::text_laws::law_numerals_differ(m, n);
    }
}

/// What a message says is what stands in its fields.
pub proof fn law_messages_are_seen_whole(
    info: FileInfo,
    chunk: FileChunk,
    request: ResendRequest,
    notice: TransferComplete,
    offer: TransferOffer,
    accept: TransferAccept,
)
    ensures
        info@ matches Message::FileInfo { name, size, chunks, sender_address } && name == info.name@
            && size == info.size && chunks == info.chunks && sender_address == info.sender_address@,
        chunk@ matches Message::FileChunk { index, total, data, is_last } && index == chunk.index
            && total == chunk.total && data == chunk.data@ && is_last == chunk.is_last,
        request@ matches Message::ResendRequest { file_name, missing_indices } && file_name
            == request.file_name@ && missing_indices == request.missing_indices@,
        notice@ matches Message::TransferComplete { file_name, ripemd160_hash } && file_name
            == notice.file_name@ && ripemd160_hash == notice.ripemd160_hash@,
        offer@ matches Message::TransferOffer { file_name, size, sender_address } && file_name
            == offer.file_name@ && size == offer.size && sender_address == offer.sender_address@,
        accept@ matches Message::TransferAccept { file_name, accepted } && file_name
            == accept.file_name@ && accepted == accept.accepted,
        BinaryMessage::FileInfo(info)@ == info@,
        BinaryMessage::FileChunk(chunk)@ == chunk@,
        BinaryMessage::ResendRequest(request)@ == request@,
        BinaryMessage::TransferComplete(notice)@ == notice@,
        BinaryMessage::TransferOffer(offer)@ == offer@,
        BinaryMessage::TransferAccept(accept)@ == accept@,
{
}

/// At every place a number is read from its bytes if they are all there, and else refused.
pub proof fn law_numbers_are_read(s: Seq<u8>, at: int)
    requires
        0 <= at,
    ensures
        parse_u32(s, at) == if at + 4 <= s.len() {
            Ok((u32_at(s, at) as u32, at + 4))
        } else {
            Err(ProtocolError::UnderflowU32)
        },
        parse_u64(s, at) == if at + 8 <= s.len() {
            Ok((u64_at(s, at) as u64, at + 8))
        } else {
            Err(ProtocolError::UnderflowU64)
        },
{
    if at + 4 <= s.len() {
        lemma_number_there(s, at);
    }
    if at + 8 <= s.len() {
        reveal_with_fuel(le_value, 9);
        let b = s.subrange(at, at + 8);
        let half = b.drop_first().drop_first().drop_first().drop_first();
        assert(half.drop_first().drop_first().drop_first().drop_first() =~= Seq::empty());
    }
}

/// At every place a byte string is read behind its length, a flag from one byte, and a string of known
/// length as it is, if all their bytes are there; else they are refused.
pub proof fn law_strings_are_read(s: Seq<u8>, at: int, n: int)
    requires
        0 <= at,
        0 <= n,
    ensures
        ({
            let end = at + 4 + u32_at(s, at);
            parse_bytes(s, at) == if at + 4 > s.len() {
                Err(ProtocolError::UnderflowU32)
            } else if end > s.len() {
                Err(ProtocolError::UnderflowBytes)
            } else {
                Ok((s.subrange(at + 4, end), end))
            }
        }),
        ({
            let end = at + 4 + u32_at(s, at);
            parse_string(s, at) == if at + 4 > s.len() {
                Err(ProtocolError::UnderflowU32)
            } else if end > s.len() {
                Err(ProtocolError::UnderflowString)
            } else if !valid_utf8(s.subrange(at + 4, end)) {
                Err(ProtocolError::InvalidUtf8)
            } else {
                Ok((decode_utf8(s.subrange(at + 4, end)), end))
            }
        }),
        parse_bool(s, at) == if at < s.len() {
            Ok((s[at] != 0, at + 1))
        } else {
            Err(ProtocolError::UnderflowBool)
        },
        parse_fixed(s, at, n) == if at + n <= s.len() {
            Ok((s.subrange(at, at + n), at + n))
        } else {
            Err(ProtocolError::UnderflowFixed)
        },
{
    if at + 4 <= s.len() {
        lemma_number_there(s, at);
    }
}

} // verus!
