//! What holds of the binary form of messages as a whole: nothing is lost in it, no two messages
//! share it, and a message that was cut short is refused.
use vstd::prelude::*;
use vstd::utf8::{
    decode_utf8_encode_utf8, encode_utf8, encode_utf8_decode_utf8, encode_utf8_valid_utf8,
};
use crate::protocol::{
    bool_bytes, counted, decode, encode, parse_bool, parse_bytes, parse_string, parse_u32, parse_u32s,
    parse_u64, string_bytes, u32s_bytes, Message, ProtocolError, MSG_TYPE_FILE_CHUNK,
    MSG_TYPE_FILE_INFO, MSG_TYPE_RESEND_REQUEST, MSG_TYPE_TRANSFER_ACCEPT,
    MSG_TYPE_TRANSFER_COMPLETE, MSG_TYPE_TRANSFER_OFFER,
};
use crate::wire::{
    le_bytes, le_value, lemma_byte_ranges, lemma_le_bytes_len, lemma_le_round_trip,
    lemma_le_value_bytes,
};

verus! {

/// The lengths in the message fit in their four bytes, and a digest has its twenty bytes.
pub open spec fn fits(message: Message) -> bool {
    match message {
        Message::FileInfo { name, sender_address, .. } => text_fits(name) && text_fits(
            sender_address,
        ),
        Message::FileChunk { data, .. } => data.len() <= u32::MAX,
        Message::ResendRequest { file_name, missing_indices } => text_fits(file_name)
            && missing_indices.len() <= u32::MAX,
        Message::TransferComplete { file_name, ripemd160_hash } => text_fits(file_name)
            && ripemd160_hash.len() == 20,
        Message::TransferOffer { file_name, sender_address, .. } => text_fits(file_name)
            && text_fits(sender_address),
        Message::TransferAccept { file_name, .. } => text_fits(file_name),
    }
}

/// The UTF-8 form of the text has a length of four bytes.
pub open spec fn text_fits(text: Seq<char>) -> bool {
    encode_utf8(text).len() <= u32::MAX
}

proof fn lemma_field_u32(pre: Seq<u8>, v: u32, post: Seq<u8>)
    ensures
        parse_u32(pre + le_bytes(v as nat, 4) + post, pre.len() as int) == Ok::<
            (u32, int),
            ProtocolError,
        >((v, pre.len() as int + 4)),
{
    let s = pre + le_bytes(v as nat, 4) + post;
    lemma_byte_ranges();
    lemma_le_bytes_len(v as nat, 4);
    lemma_le_round_trip(v as nat, 4);
    assert(s.subrange(pre.len() as int, pre.len() as int + 4) =~= le_bytes(v as nat, 4));
}

proof fn lemma_field_u64(pre: Seq<u8>, v: u64, post: Seq<u8>)
    ensures
        parse_u64(pre + le_bytes(v as nat, 8) + post, pre.len() as int) == Ok::<
            (u64, int),
            ProtocolError,
        >((v, pre.len() as int + 8)),
{
    let s = pre + le_bytes(v as nat, 8) + post;
    lemma_byte_ranges();
    lemma_le_bytes_len(v as nat, 8);
    lemma_le_round_trip(v as nat, 8);
    assert(s.subrange(pre.len() as int, pre.len() as int + 8) =~= le_bytes(v as nat, 8));
}

pub(crate) proof fn lemma_field_bytes(pre: Seq<u8>, b: Seq<u8>, post: Seq<u8>)
    requires
        b.len() <= u32::MAX,
    ensures
        counted(b).len() == 4 + b.len(),
        parse_bytes(pre + counted(b) + post, pre.len() as int) == Ok::<
            (Seq<u8>, int),
            ProtocolError,
        >((b, pre.len() as int + 4 + b.len())),
{
    let s = pre + counted(b) + post;
    let len = b.len() as u32;
    lemma_le_bytes_len(len as nat, 4);
    assert(s =~= pre + le_bytes(len as nat, 4) + (b + post));
    lemma_field_u32(pre, len, b + post);
    assert(s.subrange(pre.len() as int + 4, pre.len() as int + 4 + b.len()) =~= b);
}

proof fn lemma_field_string(pre: Seq<u8>, text: Seq<char>, post: Seq<u8>)
    requires
        text_fits(text),
    ensures
        string_bytes(text).len() == 4 + encode_utf8(text).len(),
        parse_string(pre + string_bytes(text) + post, pre.len() as int) == Ok::<
            (Seq<char>, int),
            ProtocolError,
        >((text, pre.len() as int + string_bytes(text).len())),
{
    let s = pre + string_bytes(text) + post;
    let b = encode_utf8(text);
    let len = b.len() as u32;
    lemma_le_bytes_len(len as nat, 4);
    assert(s =~= pre + le_bytes(len as nat, 4) + (b + post));
    lemma_field_u32(pre, len, b + post);
    assert(s.subrange(pre.len() as int + 4, pre.len() as int + 4 + b.len()) =~= b);
    encode_utf8_valid_utf8(text);
    encode_utf8_decode_utf8(text);
}

proof fn lemma_field_bool(pre: Seq<u8>, v: bool, post: Seq<u8>)
    ensures
        parse_bool(pre + bool_bytes(v) + post, pre.len() as int) == Ok::<
            (bool, int),
            ProtocolError,
        >((v, pre.len() as int + 1)),
{
    let s = pre + bool_bytes(v) + post;
    assert(s[pre.len() as int] == bool_bytes(v)[0]);
}

proof fn lemma_u32s_len(values: Seq<u32>)
    ensures
        u32s_bytes(values).len() == 4 * values.len(),
    decreases values.len(),
{
    if values.len() > 0 {
        lemma_u32s_len(values.drop_last());
        lemma_le_bytes_len(values.last() as nat, 4);
    }
}

proof fn lemma_u32s_at(values: Seq<u32>, i: int)
    requires
        0 <= i < values.len(),
    ensures
        u32s_bytes(values).len() == 4 * values.len(),
        u32s_bytes(values).subrange(4 * i, 4 * i + 4) == le_bytes(values[i] as nat, 4),
    decreases values.len(),
{
    lemma_u32s_len(values);
    lemma_u32s_len(values.drop_last());
    lemma_le_bytes_len(values.last() as nat, 4);
    if i == values.len() - 1 {
        assert(u32s_bytes(values).subrange(4 * i, 4 * i + 4) =~= le_bytes(values[i] as nat, 4));
    } else {
        lemma_u32s_at(values.drop_last(), i);
        assert(u32s_bytes(values).subrange(4 * i, 4 * i + 4) =~= u32s_bytes(
            values.drop_last(),
        ).subrange(4 * i, 4 * i + 4));
    }
}

proof fn lemma_field_u32s(pre: Seq<u8>, values: Seq<u32>, post: Seq<u8>)
    ensures
        u32s_bytes(values).len() == 4 * values.len(),
        parse_u32s(pre + u32s_bytes(values) + post, pre.len() as int, values.len() as int) == Ok::<
            Seq<u32>,
            ProtocolError,
        >(values),
{
    let s = pre + u32s_bytes(values) + post;
    let at = pre.len() as int;
    lemma_u32s_len(values);
    lemma_byte_ranges();
    let parsed = Seq::new(
        values.len(),
        |i: int| le_value(s.subrange(at + 4 * i, at + 4 * i + 4)) as u32,
    );
    assert forall|i: int| 0 <= i < values.len() implies parsed[i] == values[i] by {
        lemma_u32s_at(values, i);
        lemma_le_round_trip(values[i] as nat, 4);
        assert(s.subrange(at + 4 * i, at + 4 * i + 4) =~= u32s_bytes(values).subrange(
            4 * i,
            4 * i + 4,
        ));
    }
    assert(parsed =~= values);
}

proof fn lemma_file_info_round_trip(
    name: Seq<char>,
    size: u64,
    chunks: u32,
    sender_address: Seq<char>,
    rest: Seq<u8>,
)
    requires
        fits(Message::FileInfo { name, size, chunks, sender_address }),
    ensures
        decode(encode(Message::FileInfo { name, size, chunks, sender_address }) + rest) == Ok::<Message, ProtocolError>(
            Message::FileInfo { name, size, chunks, sender_address },
        ),
{
    let s = encode(Message::FileInfo { name, size, chunks, sender_address }) + rest;
    let tag = seq![MSG_TYPE_FILE_INFO];
    let a = tag + string_bytes(name);
    let b = a + le_bytes(size as nat, 8);
    let c = b + le_bytes(chunks as nat, 4);
    lemma_le_bytes_len(size as nat, 8);
    lemma_le_bytes_len(chunks as nat, 4);
    let r3 = string_bytes(sender_address) + rest;
    let r2 = le_bytes(chunks as nat, 4) + r3;
    let r1 = le_bytes(size as nat, 8) + r2;
    assert(s =~= tag + string_bytes(name) + r1);
    lemma_field_string(tag, name, r1);
    assert(s =~= a + le_bytes(size as nat, 8) + r2);
    lemma_field_u64(a, size, r2);
    assert(s =~= b + le_bytes(chunks as nat, 4) + r3);
    lemma_field_u32(b, chunks, r3);
    assert(s =~= c + string_bytes(sender_address) + rest);
    lemma_field_string(c, sender_address, rest);
}

proof fn lemma_file_chunk_round_trip(
    index: u32,
    total: u32,
    data: Seq<u8>,
    is_last: bool,
    rest: Seq<u8>,
)
    requires
        fits(Message::FileChunk { index, total, data, is_last }),
    ensures
        decode(encode(Message::FileChunk { index, total, data, is_last }) + rest) == Ok::<Message, ProtocolError>(
            Message::FileChunk { index, total, data, is_last },
        ),
{
    let s = encode(Message::FileChunk { index, total, data, is_last }) + rest;
    let tag = seq![MSG_TYPE_FILE_CHUNK];
    let a = tag + le_bytes(index as nat, 4);
    let b = a + le_bytes(total as nat, 4);
    let c = b + counted(data);
    lemma_le_bytes_len(index as nat, 4);
    lemma_le_bytes_len(total as nat, 4);
    let r3 = bool_bytes(is_last) + rest;
    let r2 = counted(data) + r3;
    let r1 = le_bytes(total as nat, 4) + r2;
    assert(s =~= tag + le_bytes(index as nat, 4) + r1);
    lemma_field_u32(tag, index, r1);
    assert(s =~= a + le_bytes(total as nat, 4) + r2);
    lemma_field_u32(a, total, r2);
    assert(s =~= b + counted(data) + r3);
    lemma_field_bytes(b, data, r3);
    assert(s =~= c + bool_bytes(is_last) + rest);
    lemma_field_bool(c, is_last, rest);
}

proof fn lemma_resend_request_round_trip(
    file_name: Seq<char>,
    missing_indices: Seq<u32>,
    rest: Seq<u8>,
)
    requires
        fits(Message::ResendRequest { file_name, missing_indices }),
    ensures
        decode(encode(Message::ResendRequest { file_name, missing_indices }) + rest) == Ok::<Message, ProtocolError>(
            Message::ResendRequest { file_name, missing_indices },
        ),
{
    let s = encode(Message::ResendRequest { file_name, missing_indices }) + rest;
    let tag = seq![MSG_TYPE_RESEND_REQUEST];
    let count = missing_indices.len() as u32;
    let a = tag + string_bytes(file_name);
    let b = a + le_bytes(count as nat, 4);
    lemma_le_bytes_len(count as nat, 4);
    let r2 = u32s_bytes(missing_indices) + rest;
    let r1 = le_bytes(count as nat, 4) + r2;
    assert(s =~= tag + string_bytes(file_name) + r1);
    lemma_field_string(tag, file_name, r1);
    assert(s =~= a + le_bytes(count as nat, 4) + r2);
    lemma_field_u32(a, count, r2);
    assert(s =~= b + u32s_bytes(missing_indices) + rest);
    lemma_field_u32s(b, missing_indices, rest);
}

proof fn lemma_transfer_complete_round_trip(
    file_name: Seq<char>,
    ripemd160_hash: Seq<u8>,
    rest: Seq<u8>,
)
    requires
        fits(Message::TransferComplete { file_name, ripemd160_hash }),
    ensures
        decode(encode(Message::TransferComplete { file_name, ripemd160_hash }) + rest) == Ok::<Message, ProtocolError>(
            Message::TransferComplete { file_name, ripemd160_hash },
        ),
{
    let s = encode(Message::TransferComplete { file_name, ripemd160_hash }) + rest;
    let tag = seq![MSG_TYPE_TRANSFER_COMPLETE];
    let a = tag + string_bytes(file_name);
    let r1 = ripemd160_hash + rest;
    assert(s =~= tag + string_bytes(file_name) + r1);
    lemma_field_string(tag, file_name, r1);
    assert(s.subrange(a.len() as int, a.len() as int + 20) =~= ripemd160_hash);
}

proof fn lemma_transfer_offer_round_trip(
    file_name: Seq<char>,
    size: u64,
    sender_address: Seq<char>,
    rest: Seq<u8>,
)
    requires
        fits(Message::TransferOffer { file_name, size, sender_address }),
    ensures
        decode(encode(Message::TransferOffer { file_name, size, sender_address }) + rest) == Ok::<Message, ProtocolError>(
            Message::TransferOffer { file_name, size, sender_address },
        ),
{
    let s = encode(Message::TransferOffer { file_name, size, sender_address }) + rest;
    let tag = seq![MSG_TYPE_TRANSFER_OFFER];
    let a = tag + string_bytes(file_name);
    let b = a + le_bytes(size as nat, 8);
    lemma_le_bytes_len(size as nat, 8);
    let r2 = string_bytes(sender_address) + rest;
    let r1 = le_bytes(size as nat, 8) + r2;
    assert(s =~= tag + string_bytes(file_name) + r1);
    lemma_field_string(tag, file_name, r1);
    assert(s =~= a + le_bytes(size as nat, 8) + r2);
    lemma_field_u64(a, size, r2);
    assert(s =~= b + string_bytes(sender_address) + rest);
    lemma_field_string(b, sender_address, rest);
}

proof fn lemma_transfer_accept_round_trip(
    file_name: Seq<char>,
    accepted: bool,
    rest: Seq<u8>,
)
    requires
        fits(Message::TransferAccept { file_name, accepted }),
    ensures
        decode(encode(Message::TransferAccept { file_name, accepted }) + rest) == Ok::<Message, ProtocolError>(
            Message::TransferAccept { file_name, accepted },
        ),
{
    let s = encode(Message::TransferAccept { file_name, accepted }) + rest;
    let tag = seq![MSG_TYPE_TRANSFER_ACCEPT];
    let a = tag + string_bytes(file_name);
    let r1 = bool_bytes(accepted) + rest;
    assert(s =~= tag + string_bytes(file_name) + r1);
    lemma_field_string(tag, file_name, r1);
    assert(s =~= a + bool_bytes(accepted) + rest);
    lemma_field_bool(a, accepted, rest);
}

/// A message is read back from its binary form, whatever follows it.
pub proof fn law_round_trip(message: Message, rest: Seq<u8>)
    requires
        fits(message),
    ensures
        decode(encode(message) + rest) == Ok::<Message, ProtocolError>(message),
{
    match message {
        Message::FileInfo { name, size, chunks, sender_address } => {
            lemma_file_info_round_trip(name, size, chunks, sender_address, rest);
        },
        Message::FileChunk { index, total, data, is_last } => {
            lemma_file_chunk_round_trip(index, total, data, is_last, rest);
        },
        Message::ResendRequest { file_name, missing_indices } => {
            lemma_resend_request_round_trip(file_name, missing_indices, rest);
        },
        Message::TransferComplete { file_name, ripemd160_hash } => {
            lemma_transfer_complete_round_trip(file_name, ripemd160_hash, rest);
        },
        Message::TransferOffer { file_name, size, sender_address } => {
            lemma_transfer_offer_round_trip(file_name, size, sender_address, rest);
        },
        Message::TransferAccept { file_name, accepted } => {
            lemma_transfer_accept_round_trip(file_name, accepted, rest);
        },
    }
}

/// No two messages have the same binary form.
pub proof fn law_encoding_is_injective(first: Message, second: Message)
    requires
        fits(first),
        fits(second),
        encode(first) == encode(second),
    ensures
        first == second,
{
    law_round_trip(first, seq![]);
    law_round_trip(second, seq![]);
}

// What is read from bytes is what the bytes up to there are the binary form of.

proof fn lemma_read_u32(data: Seq<u8>, at: int)
    requires
        0 <= at,
        parse_u32(data, at) is Ok,
    ensures
        ({
            let (v, end) = parse_u32(data, at)->Ok_0;
            &&& end == at + 4 <= data.len()
            &&& le_bytes(v as nat, 4) == data.subrange(at, end)
        }),
{
    lemma_byte_ranges();
    lemma_le_value_bytes(data.subrange(at, at + 4));
}

proof fn lemma_read_u64(data: Seq<u8>, at: int)
    requires
        0 <= at,
        parse_u64(data, at) is Ok,
    ensures
        ({
            let (v, end) = parse_u64(data, at)->Ok_0;
            &&& end == at + 8 <= data.len()
            &&& le_bytes(v as nat, 8) == data.subrange(at, end)
        }),
{
    lemma_byte_ranges();
    lemma_le_value_bytes(data.subrange(at, at + 8));
}

proof fn lemma_read_bytes(data: Seq<u8>, at: int)
    requires
        0 <= at,
        parse_bytes(data, at) is Ok,
    ensures
        ({
            let (b, end) = parse_bytes(data, at)->Ok_0;
            &&& at <= end <= data.len()
            &&& b.len() <= u32::MAX
            &&& counted(b) == data.subrange(at, end)
        }),
{
    let (b, end) = parse_bytes(data, at)->Ok_0;
    lemma_read_u32(data, at);
    assert(counted(b) =~= data.subrange(at, end));
}

proof fn lemma_read_string(data: Seq<u8>, at: int)
    requires
        0 <= at,
        parse_string(data, at) is Ok,
    ensures
        ({
            let (text, end) = parse_string(data, at)->Ok_0;
            &&& at <= end <= data.len()
            &&& text_fits(text)
            &&& string_bytes(text) == data.subrange(at, end)
        }),
{
    let (text, end) = parse_string(data, at)->Ok_0;
    lemma_read_u32(data, at);
    let b = data.subrange(at + 4, end);
    decode_utf8_encode_utf8(b);
    assert(string_bytes(text) =~= data.subrange(at, end));
}

proof fn lemma_read_u32s(data: Seq<u8>, at: int, count: int)
    requires
        0 <= at,
        0 <= count,
        parse_u32s(data, at, count) is Ok,
    ensures
        ({
            let values = parse_u32s(data, at, count)->Ok_0;
            &&& values.len() == count
            &&& at + 4 * count <= data.len()
            &&& u32s_bytes(values) == data.subrange(at, at + 4 * count)
        }),
    decreases count,
{
    let values = parse_u32s(data, at, count)->Ok_0;
    if count == 0 {
        assert(u32s_bytes(values) =~= data.subrange(at, at + 4 * count));
    } else {
        lemma_read_u32s(data, at, count - 1);
        let before = parse_u32s(data, at, count - 1)->Ok_0;
        assert(values.drop_last() =~= before);
        lemma_read_u32(data, at + 4 * (count - 1));
        assert(u32s_bytes(values) =~= data.subrange(at, at + 4 * count));
    }
}

/// The message ends in a flag, of which a reader takes every byte but zero for a yes.
pub open spec fn ends_in_flag(message: Message) -> bool {
    message is FileChunk || message is TransferAccept
}

/// Bytes start with the binary form of a message; where that ends in a flag, the last byte can be
/// another one.
pub open spec fn starts_with_message(data: Seq<u8>, message: Message) -> bool {
    &&& encode(message).len() <= data.len()
    &&& forall|i: int|
        0 <= i < encode(message).len() ==> encode(message)[i] == data[i] || (ends_in_flag(message)
            && i == encode(message).len() - 1)
}

proof fn lemma_file_info_bytes(data: Seq<u8>)
    requires
        decode(data) is Ok,
        data[0] == MSG_TYPE_FILE_INFO,
    ensures
        fits(decode(data)->Ok_0),
        starts_with_message(data, decode(data)->Ok_0),
{
    let e = encode(decode(data)->Ok_0);
    lemma_read_string(data, 1);
    let (name, p1) = parse_string(data, 1)->Ok_0;
    lemma_read_u64(data, p1);
    lemma_read_u32(data, p1 + 8);
    lemma_read_string(data, p1 + 12);
    let (_, end) = parse_string(data, p1 + 12)->Ok_0;
    assert(e =~= data.take(end));
}

proof fn lemma_file_chunk_bytes(data: Seq<u8>)
    requires
        decode(data) is Ok,
        data[0] == MSG_TYPE_FILE_CHUNK,
    ensures
        fits(decode(data)->Ok_0),
        starts_with_message(data, decode(data)->Ok_0),
{
    let e = encode(decode(data)->Ok_0);
    lemma_read_u32(data, 1);
    lemma_read_u32(data, 5);
    lemma_read_bytes(data, 9);
    let (_, p3) = parse_bytes(data, 9)->Ok_0;
    assert(e.drop_last() =~= data.take(p3));
    assert forall|i: int| 0 <= i < e.len() - 1 implies e[i] == data[i] by {
        assert(e[i] == e.drop_last()[i]);
    }
}

proof fn lemma_resend_request_bytes(data: Seq<u8>)
    requires
        decode(data) is Ok,
        data[0] == MSG_TYPE_RESEND_REQUEST,
    ensures
        fits(decode(data)->Ok_0),
        starts_with_message(data, decode(data)->Ok_0),
{
    let e = encode(decode(data)->Ok_0);
    lemma_read_string(data, 1);
    let (name, p1) = parse_string(data, 1)->Ok_0;
    lemma_read_u32(data, p1);
    let (count, p2) = parse_u32(data, p1)->Ok_0;
    lemma_read_u32s(data, p2, count as int);
    assert(e =~= data.take(p2 + 4 * count));
}

proof fn lemma_transfer_complete_bytes(data: Seq<u8>)
    requires
        decode(data) is Ok,
        data[0] == MSG_TYPE_TRANSFER_COMPLETE,
    ensures
        fits(decode(data)->Ok_0),
        starts_with_message(data, decode(data)->Ok_0),
{
    let e = encode(decode(data)->Ok_0);
    lemma_read_string(data, 1);
    let (name, p1) = parse_string(data, 1)->Ok_0;
    assert(e =~= data.take(p1 + 20));
}

proof fn lemma_transfer_offer_bytes(data: Seq<u8>)
    requires
        decode(data) is Ok,
        data[0] == MSG_TYPE_TRANSFER_OFFER,
    ensures
        fits(decode(data)->Ok_0),
        starts_with_message(data, decode(data)->Ok_0),
{
    let e = encode(decode(data)->Ok_0);
    lemma_read_string(data, 1);
    let (name, p1) = parse_string(data, 1)->Ok_0;
    lemma_read_u64(data, p1);
    lemma_read_string(data, p1 + 8);
    let (_, end) = parse_string(data, p1 + 8)->Ok_0;
    assert(e =~= data.take(end));
}

proof fn lemma_transfer_accept_bytes(data: Seq<u8>)
    requires
        decode(data) is Ok,
        data[0] == MSG_TYPE_TRANSFER_ACCEPT,
    ensures
        fits(decode(data)->Ok_0),
        starts_with_message(data, decode(data)->Ok_0),
{
    let e = encode(decode(data)->Ok_0);
    lemma_read_string(data, 1);
    let (name, p1) = parse_string(data, 1)->Ok_0;
    assert(e.drop_last() =~= data.take(p1));
    assert forall|i: int| 0 <= i < e.len() - 1 implies e[i] == data[i] by {
        assert(e[i] == e.drop_last()[i]);
    }
}

/// Bytes that are read as a message start with its binary form; only where that ends in a flag
/// can the last byte be another one that means the same.
pub proof fn law_bytes_of_a_read_message(data: Seq<u8>)
    requires
        decode(data) is Ok,
    ensures
        fits(decode(data)->Ok_0),
        starts_with_message(data, decode(data)->Ok_0),
{
    if data[0] == MSG_TYPE_FILE_INFO {
        lemma_file_info_bytes(data);
    } else if data[0] == MSG_TYPE_FILE_CHUNK {
        lemma_file_chunk_bytes(data);
    } else if data[0] == MSG_TYPE_RESEND_REQUEST {
        lemma_resend_request_bytes(data);
    } else if data[0] == MSG_TYPE_TRANSFER_COMPLETE {
        lemma_transfer_complete_bytes(data);
    } else if data[0] == MSG_TYPE_TRANSFER_OFFER {
        lemma_transfer_offer_bytes(data);
    } else {
        lemma_transfer_accept_bytes(data);
    }
}

// What is read from bytes does not change when more bytes follow.

proof fn lemma_extend_u32(data: Seq<u8>, rest: Seq<u8>, at: int)
    requires
        0 <= at,
        parse_u32(data, at) is Ok,
    ensures
        parse_u32(data + rest, at) == parse_u32(data, at),
{
    assert((data + rest).subrange(at, at + 4) =~= data.subrange(at, at + 4));
}

proof fn lemma_extend_u64(data: Seq<u8>, rest: Seq<u8>, at: int)
    requires
        0 <= at,
        parse_u64(data, at) is Ok,
    ensures
        parse_u64(data + rest, at) == parse_u64(data, at),
{
    assert((data + rest).subrange(at, at + 8) =~= data.subrange(at, at + 8));
}

proof fn lemma_extend_bytes(data: Seq<u8>, rest: Seq<u8>, at: int)
    requires
        0 <= at,
        parse_bytes(data, at) is Ok,
    ensures
        parse_bytes(data + rest, at) == parse_bytes(data, at),
{
    lemma_extend_u32(data, rest, at);
    let (_, end) = parse_bytes(data, at)->Ok_0;
    assert((data + rest).subrange(at + 4, end) =~= data.subrange(at + 4, end));
}

proof fn lemma_extend_string(data: Seq<u8>, rest: Seq<u8>, at: int)
    requires
        0 <= at,
        parse_string(data, at) is Ok,
    ensures
        parse_string(data + rest, at) == parse_string(data, at),
{
    lemma_extend_u32(data, rest, at);
    let (_, end) = parse_string(data, at)->Ok_0;
    assert((data + rest).subrange(at + 4, end) =~= data.subrange(at + 4, end));
}

proof fn lemma_extend_u32s(data: Seq<u8>, rest: Seq<u8>, at: int, count: int)
    requires
        0 <= at,
        0 <= count,
        parse_u32s(data, at, count) is Ok,
    ensures
        parse_u32s(data + rest, at, count) == parse_u32s(data, at, count),
{
    let short = parse_u32s(data, at, count)->Ok_0;
    let long = parse_u32s(data + rest, at, count)->Ok_0;
    assert forall|i: int| 0 <= i < count implies short[i] == long[i] by {
        assert((data + rest).subrange(at + 4 * i, at + 4 * i + 4) =~= data.subrange(
            at + 4 * i,
            at + 4 * i + 4,
        ));
    }
    assert(short =~= long);
}

/// What follows a message does not change how it is read.
pub proof fn law_trailing_bytes_are_ignored(data: Seq<u8>, rest: Seq<u8>)
    requires
        decode(data) is Ok,
    ensures
        decode(data + rest) == decode(data),
{
    assert((data + rest)[0] == data[0]);
    if data[0] == MSG_TYPE_FILE_INFO {
        lemma_extend_string(data, rest, 1);
        lemma_read_string(data, 1);
        let (_, p1) = parse_string(data, 1)->Ok_0;
        lemma_extend_u64(data, rest, p1);
        lemma_extend_u32(data, rest, p1 + 8);
        lemma_extend_string(data, rest, p1 + 12);
    } else if data[0] == MSG_TYPE_FILE_CHUNK {
        lemma_extend_u32(data, rest, 1);
        lemma_extend_u32(data, rest, 5);
        lemma_extend_bytes(data, rest, 9);
        lemma_read_bytes(data, 9);
    } else if data[0] == MSG_TYPE_RESEND_REQUEST {
        lemma_extend_string(data, rest, 1);
        lemma_read_string(data, 1);
        let (_, p1) = parse_string(data, 1)->Ok_0;
        lemma_extend_u32(data, rest, p1);
        let (count, p2) = parse_u32(data, p1)->Ok_0;
        lemma_extend_u32s(data, rest, p2, count as int);
    } else if data[0] == MSG_TYPE_TRANSFER_COMPLETE {
        lemma_extend_string(data, rest, 1);
        lemma_read_string(data, 1);
        let (_, p1) = parse_string(data, 1)->Ok_0;
        assert((data + rest).subrange(p1, p1 + 20) =~= data.subrange(p1, p1 + 20));
    } else if data[0] == MSG_TYPE_TRANSFER_OFFER {
        lemma_extend_string(data, rest, 1);
        lemma_read_string(data, 1);
        let (_, p1) = parse_string(data, 1)->Ok_0;
        lemma_extend_u64(data, rest, p1);
        lemma_extend_string(data, rest, p1 + 8);
    } else {
        lemma_extend_string(data, rest, 1);
        lemma_read_string(data, 1);
    }
}

/// A message that was cut short is refused.
pub proof fn law_cut_message_is_refused(message: Message, len: int)
    requires
        fits(message),
        0 <= len < encode(message).len(),
    ensures
        decode(encode(message).take(len)) is Err,
{
    let whole = encode(message);
    let cut = whole.take(len);
    if decode(cut) is Ok {
        assert(cut + whole.skip(len) =~= whole);
        assert(whole + seq![] =~= whole);
        law_trailing_bytes_are_ignored(cut, whole.skip(len));
        law_round_trip(message, seq![]);
        law_bytes_of_a_read_message(cut);
    }
}

} // verus!
