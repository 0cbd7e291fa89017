//! The messages that the peers of a transfer exchange, and their binary form.
//!
//! A message is one byte that gives its type, followed by its fields. Integers are little-endian;
//! texts and byte strings are preceded by their length in four bytes.
use vstd::prelude::*;
use vstd::utf8::{decode_utf8, encode_utf8, valid_utf8};
use vstd::string::StringSliceAdditionalSpecFns;
use crate::text::{decimal, decimal_of, hex_digit_of, hex_text, joined, owned, utf8_decode};
use crate::wire::{le_bytes, le_value, value_u32, value_u64, write_len, write_u32, write_u64};

verus! {

pub const MSG_TYPE_FILE_INFO: u8 = 0x01;

pub const MSG_TYPE_FILE_CHUNK: u8 = 0x02;

pub const MSG_TYPE_RESEND_REQUEST: u8 = 0x03;

pub const MSG_TYPE_TRANSFER_COMPLETE: u8 = 0x04;

pub const MSG_TYPE_TRANSFER_OFFER: u8 = 0x05;

pub const MSG_TYPE_TRANSFER_ACCEPT: u8 = 0x06;

/// Announces a file: what follows are its chunks.
pub struct FileInfo {
    pub name: String,
    pub size: u64,
    pub chunks: u32,
    pub sender_address: String,
}

/// One chunk of a file.
pub struct FileChunk {
    pub index: u32,
    pub total: u32,
    pub data: Vec<u8>,
    pub is_last: bool,
}

/// Asks the sender for chunks that have not arrived.
#[derive(Debug)]
pub struct ResendRequest {
    pub file_name: String,
    pub missing_indices: Vec<u32>,
}

/// Tells the sender that the file is complete, and what it hashes to.
#[derive(Debug)]
pub struct TransferComplete {
    pub file_name: String,
    pub ripemd160_hash: [u8; 20],
}

/// Asks the receiver whether it takes a file.
pub struct TransferOffer {
    pub file_name: String,
    pub size: u64,
    pub sender_address: String,
}

/// The receiver's answer to an offer.
pub struct TransferAccept {
    pub file_name: String,
    pub accepted: bool,
}

/// A message of any type.
pub enum BinaryMessage {
    FileInfo(FileInfo),
    FileChunk(FileChunk),
    ResendRequest(ResendRequest),
    TransferComplete(TransferComplete),
    TransferOffer(TransferOffer),
    TransferAccept(TransferAccept),
}

/// Why bytes are not a message.
#[derive(Debug, Clone, Copy, PartialEq, Eq, Structural)]
pub enum ProtocolError {
    /// There are no bytes at all.
    EmptyMessage,
    /// The first byte is no message type.
    UnknownType(u8),
    /// The bytes end within a four-byte integer.
    UnderflowU32,
    /// The bytes end within an eight-byte integer.
    UnderflowU64,
    /// The bytes end within a text.
    UnderflowString,
    /// The bytes end within a byte string.
    UnderflowBytes,
    /// The bytes end before a flag.
    UnderflowBool,
    /// The bytes end within a byte string of fixed length.
    UnderflowFixed,
    /// A text is not valid UTF-8.
    InvalidUtf8,
}

/// What a message says.
pub enum Message {
    FileInfo { name: Seq<char>, size: u64, chunks: u32, sender_address: Seq<char> },
    FileChunk { index: u32, total: u32, data: Seq<u8>, is_last: bool },
    ResendRequest { file_name: Seq<char>, missing_indices: Seq<u32> },
    TransferComplete { file_name: Seq<char>, ripemd160_hash: Seq<u8> },
    TransferOffer { file_name: Seq<char>, size: u64, sender_address: Seq<char> },
    TransferAccept { file_name: Seq<char>, accepted: bool },
}

impl View for FileInfo {
    type V = Message;

    open spec fn view(&self) -> Message {
        Message::FileInfo {
            name: self.name@,
            size: self.size,
            chunks: self.chunks,
            sender_address: self.sender_address@,
        }
    }
}

impl View for FileChunk {
    type V = Message;

    open spec fn view(&self) -> Message {
        Message::FileChunk {
            index: self.index,
            total: self.total,
            data: self.data@,
            is_last: self.is_last,
        }
    }
}

impl View for ResendRequest {
    type V = Message;

    open spec fn view(&self) -> Message {
        Message::ResendRequest {
            file_name: self.file_name@,
            missing_indices: self.missing_indices@,
        }
    }
}

impl View for TransferComplete {
    type V = Message;

    open spec fn view(&self) -> Message {
        Message::TransferComplete {
            file_name: self.file_name@,
            ripemd160_hash: self.ripemd160_hash@,
        }
    }
}

impl View for TransferOffer {
    type V = Message;

    open spec fn view(&self) -> Message {
        Message::TransferOffer {
            file_name: self.file_name@,
            size: self.size,
            sender_address: self.sender_address@,
        }
    }
}

impl View for TransferAccept {
    type V = Message;

    open spec fn view(&self) -> Message {
        Message::TransferAccept { file_name: self.file_name@, accepted: self.accepted }
    }
}

impl View for BinaryMessage {
    type V = Message;

    open spec fn view(&self) -> Message {
        match self {
            BinaryMessage::FileInfo(info) => info@,
            BinaryMessage::FileChunk(chunk) => chunk@,
            BinaryMessage::ResendRequest(req) => req@,
            BinaryMessage::TransferComplete(tc) => tc@,
            BinaryMessage::TransferOffer(offer) => offer@,
            BinaryMessage::TransferAccept(accept) => accept@,
        }
    }
}

// ---------------------------------------------------------------------------------------------
// Writing
// ---------------------------------------------------------------------------------------------

/// A byte string with its length before it. Of the length only the four low-order bytes are kept.
pub open spec fn counted(bytes: Seq<u8>) -> Seq<u8> {
    le_bytes(bytes.len(), 4) + bytes
}

/// A text: its UTF-8 form with its length before it.
pub open spec fn string_bytes(text: Seq<char>) -> Seq<u8> {
    counted(encode_utf8(text))
}

/// A flag.
pub open spec fn bool_bytes(value: bool) -> Seq<u8> {
    seq![if value { 1u8 } else { 0u8 }]
}

/// Integers one after the other, four bytes each.
pub open spec fn u32s_bytes(values: Seq<u32>) -> Seq<u8>
    decreases values.len(),
{
    if values.len() == 0 {
        seq![]
    } else {
        u32s_bytes(values.drop_last()) + le_bytes(values.last() as nat, 4)
    }
}

/// The binary form of a message.
pub open spec fn encode(message: Message) -> Seq<u8> {
    match message {
        Message::FileInfo { name, size, chunks, sender_address } => seq![MSG_TYPE_FILE_INFO]
            + string_bytes(name) + le_bytes(size as nat, 8) + le_bytes(chunks as nat, 4)
            + string_bytes(sender_address),
        Message::FileChunk { index, total, data, is_last } => seq![MSG_TYPE_FILE_CHUNK]
            + le_bytes(index as nat, 4) + le_bytes(total as nat, 4) + counted(data) + bool_bytes(
            is_last,
        ),
        Message::ResendRequest { file_name, missing_indices } => seq![MSG_TYPE_RESEND_REQUEST]
            + string_bytes(file_name) + le_bytes(missing_indices.len(), 4) + u32s_bytes(
            missing_indices,
        ),
        Message::TransferComplete { file_name, ripemd160_hash } => seq![
            MSG_TYPE_TRANSFER_COMPLETE,
        ] + string_bytes(file_name) + ripemd160_hash,
        Message::TransferOffer { file_name, size, sender_address } => seq![
            MSG_TYPE_TRANSFER_OFFER,
        ] + string_bytes(file_name) + le_bytes(size as nat, 8) + string_bytes(sender_address),
        Message::TransferAccept { file_name, accepted } => seq![MSG_TYPE_TRANSFER_ACCEPT]
            + string_bytes(file_name) + bool_bytes(accepted),
    }
}

/// Appends a text.
pub fn write_string(buf: &mut Vec<u8>, s: &str)
    ensures
        final(buf)@ == old(buf)@ + string_bytes(s@),
{
    let bytes = s.as_bytes();
    write_bytes(buf, bytes);
}

/// Appends a byte string.
pub fn write_bytes(buf: &mut Vec<u8>, data: &[u8])
    ensures
        final(buf)@ == old(buf)@ + counted(data@),
{
    write_len(buf, data.len());
    buf.extend_from_slice(data);
    assert(buf@ =~= old(buf)@ + counted(data@));
}

/// Appends a flag.
pub fn write_bool(buf: &mut Vec<u8>, value: bool)
    ensures
        final(buf)@ == old(buf)@ + bool_bytes(value),
{
    buf.push(if value { 1 } else { 0 });
    assert(buf@ =~= old(buf)@ + bool_bytes(value));
}

/// The binary form of the announcement of a file.
pub fn serialize_file_info(info: &FileInfo) -> (bytes: Vec<u8>)
    ensures
        bytes@ == encode(info@),
{
    let mut buf: Vec<u8> = Vec::new();
    buf.push(MSG_TYPE_FILE_INFO);
    assert(buf@ =~= seq![MSG_TYPE_FILE_INFO]);
    write_string(&mut buf, info.name.as_str());
    write_u64(&mut buf, info.size);
    write_u32(&mut buf, info.chunks);
    write_string(&mut buf, info.sender_address.as_str());
    buf
}

/// The binary form of a chunk.
pub fn serialize_file_chunk(chunk: &FileChunk) -> (bytes: Vec<u8>)
    ensures
        bytes@ == encode(chunk@),
{
    let mut buf: Vec<u8> = Vec::new();
    buf.push(MSG_TYPE_FILE_CHUNK);
    assert(buf@ =~= seq![MSG_TYPE_FILE_CHUNK]);
    write_u32(&mut buf, chunk.index);
    write_u32(&mut buf, chunk.total);
    write_bytes(&mut buf, chunk.data.as_slice());
    write_bool(&mut buf, chunk.is_last);
    buf
}

/// The binary form of a request for chunks.
pub fn serialize_resend_request(req: &ResendRequest) -> (bytes: Vec<u8>)
    ensures
        bytes@ == encode(req@),
{
    let mut buf: Vec<u8> = Vec::new();
    buf.push(MSG_TYPE_RESEND_REQUEST);
    assert(buf@ =~= seq![MSG_TYPE_RESEND_REQUEST]);
    write_string(&mut buf, req.file_name.as_str());
    write_len(&mut buf, req.missing_indices.len());
    let ghost head = buf@;
    let mut i: usize = 0;
    while i < req.missing_indices.len()
        invariant
            i <= req.missing_indices@.len(),
            buf@ == head + u32s_bytes(req.missing_indices@.take(i as int)),
        decreases req.missing_indices.len() - i,
    {
        write_u32(&mut buf, req.missing_indices[i]);
        proof {
            let next = req.missing_indices@.take(i + 1);
            assert(next.drop_last() =~= req.missing_indices@.take(i as int));
            assert(buf@ =~= head + u32s_bytes(next));
        }
        i = i + 1;
    }
    assert(req.missing_indices@.take(i as int) =~= req.missing_indices@);
    buf
}

/// The binary form of a completion notice.
pub fn serialize_transfer_complete(tc: &TransferComplete) -> (bytes: Vec<u8>)
    ensures
        bytes@ == encode(tc@),
{
    let mut buf: Vec<u8> = Vec::new();
    buf.push(MSG_TYPE_TRANSFER_COMPLETE);
    assert(buf@ =~= seq![MSG_TYPE_TRANSFER_COMPLETE]);
    write_string(&mut buf, tc.file_name.as_str());
    buf.extend_from_slice(tc.ripemd160_hash.as_slice());
    assert(buf@ =~= encode(tc@));
    buf
}

/// The binary form of an offer.
pub fn serialize_transfer_offer(offer: &TransferOffer) -> (bytes: Vec<u8>)
    ensures
        bytes@ == encode(offer@),
{
    let mut buf: Vec<u8> = Vec::new();
    buf.push(MSG_TYPE_TRANSFER_OFFER);
    assert(buf@ =~= seq![MSG_TYPE_TRANSFER_OFFER]);
    write_string(&mut buf, offer.file_name.as_str());
    write_u64(&mut buf, offer.size);
    write_string(&mut buf, offer.sender_address.as_str());
    buf
}

/// The binary form of an answer to an offer.
pub fn serialize_transfer_accept(accept: &TransferAccept) -> (bytes: Vec<u8>)
    ensures
        bytes@ == encode(accept@),
{
    let mut buf: Vec<u8> = Vec::new();
    buf.push(MSG_TYPE_TRANSFER_ACCEPT);
    assert(buf@ =~= seq![MSG_TYPE_TRANSFER_ACCEPT]);
    write_string(&mut buf, accept.file_name.as_str());
    write_bool(&mut buf, accept.accepted);
    buf
}

// ---------------------------------------------------------------------------------------------
// Reading
// ---------------------------------------------------------------------------------------------

/// A four-byte integer at `at`, and where it ends.
pub open spec fn parse_u32(data: Seq<u8>, at: int) -> Result<(u32, int), ProtocolError> {
    if at + 4 > data.len() {
        Err(ProtocolError::UnderflowU32)
    } else {
        Ok((le_value(data.subrange(at, at + 4)) as u32, at + 4))
    }
}

/// An eight-byte integer at `at`, and where it ends.
pub open spec fn parse_u64(data: Seq<u8>, at: int) -> Result<(u64, int), ProtocolError> {
    if at + 8 > data.len() {
        Err(ProtocolError::UnderflowU64)
    } else {
        Ok((le_value(data.subrange(at, at + 8)) as u64, at + 8))
    }
}

/// A text at `at`, and where it ends.
pub open spec fn parse_string(data: Seq<u8>, at: int) -> Result<(Seq<char>, int), ProtocolError> {
    match parse_u32(data, at) {
        Err(e) => Err(e),
        Ok((len, from)) => if from + len > data.len() {
            Err(ProtocolError::UnderflowString)
        } else if !valid_utf8(data.subrange(from, from + len)) {
            Err(ProtocolError::InvalidUtf8)
        } else {
            Ok((decode_utf8(data.subrange(from, from + len)), from + len))
        },
    }
}

/// A byte string at `at`, and where it ends.
pub open spec fn parse_bytes(data: Seq<u8>, at: int) -> Result<(Seq<u8>, int), ProtocolError> {
    match parse_u32(data, at) {
        Err(e) => Err(e),
        Ok((len, from)) => if from + len > data.len() {
            Err(ProtocolError::UnderflowBytes)
        } else {
            Ok((data.subrange(from, from + len), from + len))
        },
    }
}

/// A flag at `at`, and where it ends: every byte but zero means yes.
pub open spec fn parse_bool(data: Seq<u8>, at: int) -> Result<(bool, int), ProtocolError> {
    if at >= data.len() {
        Err(ProtocolError::UnderflowBool)
    } else {
        Ok((data[at] != 0, at + 1))
    }
}

/// `n` bytes at `at`, and where they end.
pub open spec fn parse_fixed(data: Seq<u8>, at: int, n: int) -> Result<
    (Seq<u8>, int),
    ProtocolError,
> {
    if at + n > data.len() {
        Err(ProtocolError::UnderflowFixed)
    } else {
        Ok((data.subrange(at, at + n), at + n))
    }
}

/// `count` four-byte integers from `at` on.
pub open spec fn parse_u32s(data: Seq<u8>, at: int, count: int) -> Result<
    Seq<u32>,
    ProtocolError,
> {
    if at + 4 * count > data.len() {
        Err(ProtocolError::UnderflowU32)
    } else {
        Ok(
            Seq::new(
                count as nat,
                |i: int| le_value(data.subrange(at + 4 * i, at + 4 * i + 4)) as u32,
            ),
        )
    }
}

/// The announcement of a file whose fields start at 1.
pub open spec fn decode_file_info(data: Seq<u8>) -> Result<Message, ProtocolError> {
    match parse_string(data, 1) {
        Err(e) => Err(e),
        Ok((name, at)) => match parse_u64(data, at) {
            Err(e) => Err(e),
            Ok((size, at)) => match parse_u32(data, at) {
                Err(e) => Err(e),
                Ok((chunks, at)) => match parse_string(data, at) {
                    Err(e) => Err(e),
                    Ok((sender_address, _)) => Ok(
                        Message::FileInfo { name, size, chunks, sender_address },
                    ),
                },
            },
        },
    }
}

/// A chunk whose fields start at 1.
pub open spec fn decode_file_chunk(data: Seq<u8>) -> Result<Message, ProtocolError> {
    match parse_u32(data, 1) {
        Err(e) => Err(e),
        Ok((index, at)) => match parse_u32(data, at) {
            Err(e) => Err(e),
            Ok((total, at)) => match parse_bytes(data, at) {
                Err(e) => Err(e),
                Ok((chunk_data, at)) => match parse_bool(data, at) {
                    Err(e) => Err(e),
                    Ok((is_last, _)) => Ok(
                        Message::FileChunk { index, total, data: chunk_data, is_last },
                    ),
                },
            },
        },
    }
}

/// A request for chunks whose fields start at 1.
pub open spec fn decode_resend_request(data: Seq<u8>) -> Result<Message, ProtocolError> {
    match parse_string(data, 1) {
        Err(e) => Err(e),
        Ok((file_name, at)) => match parse_u32(data, at) {
            Err(e) => Err(e),
            Ok((count, at)) => match parse_u32s(data, at, count as int) {
                Err(e) => Err(e),
                Ok(missing_indices) => Ok(Message::ResendRequest { file_name, missing_indices }),
            },
        },
    }
}

/// A completion notice whose fields start at 1.
pub open spec fn decode_transfer_complete(data: Seq<u8>) -> Result<Message, ProtocolError> {
    match parse_string(data, 1) {
        Err(e) => Err(e),
        Ok((file_name, at)) => match parse_fixed(data, at, 20) {
            Err(e) => Err(e),
            Ok((ripemd160_hash, _)) => Ok(Message::TransferComplete { file_name, ripemd160_hash }),
        },
    }
}

/// An offer whose fields start at 1.
pub open spec fn decode_transfer_offer(data: Seq<u8>) -> Result<Message, ProtocolError> {
    match parse_string(data, 1) {
        Err(e) => Err(e),
        Ok((file_name, at)) => match parse_u64(data, at) {
            Err(e) => Err(e),
            Ok((size, at)) => match parse_string(data, at) {
                Err(e) => Err(e),
                Ok((sender_address, _)) => Ok(
                    Message::TransferOffer { file_name, size, sender_address },
                ),
            },
        },
    }
}

/// An answer to an offer whose fields start at 1.
pub open spec fn decode_transfer_accept(data: Seq<u8>) -> Result<Message, ProtocolError> {
    match parse_string(data, 1) {
        Err(e) => Err(e),
        Ok((file_name, at)) => match parse_bool(data, at) {
            Err(e) => Err(e),
            Ok((accepted, _)) => Ok(Message::TransferAccept { file_name, accepted }),
        },
    }
}

/// The message that bytes hold. What follows its last field is ignored.
pub open spec fn decode(data: Seq<u8>) -> Result<Message, ProtocolError> {
    if data.len() == 0 {
        Err(ProtocolError::EmptyMessage)
    } else if data[0] == MSG_TYPE_FILE_INFO {
        decode_file_info(data)
    } else if data[0] == MSG_TYPE_FILE_CHUNK {
        decode_file_chunk(data)
    } else if data[0] == MSG_TYPE_RESEND_REQUEST {
        decode_resend_request(data)
    } else if data[0] == MSG_TYPE_TRANSFER_COMPLETE {
        decode_transfer_complete(data)
    } else if data[0] == MSG_TYPE_TRANSFER_OFFER {
        decode_transfer_offer(data)
    } else if data[0] == MSG_TYPE_TRANSFER_ACCEPT {
        decode_transfer_accept(data)
    } else {
        Err(ProtocolError::UnknownType(data[0]))
    }
}

/// Reads a four-byte integer. The offset moves past it; where it is cut short, the offset stays.
pub fn read_u32(data: &[u8], offset: &mut usize) -> (result: Result<u32, ProtocolError>)
    ensures
        match parse_u32(data@, *old(offset) as int) {
            Err(e) => result == Err::<u32, ProtocolError>(e) && *final(offset) == *old(offset),
            Ok((value, end)) => result == Ok::<u32, ProtocolError>(value) && *final(offset) == end,
        },
{
    if *offset > data.len() || data.len() - *offset < 4 {
        return Err(ProtocolError::UnderflowU32);
    }
    let value: u32 = value_u32(data, *offset);
    *offset = *offset + 4;
    Ok(value)
}

/// Reads an eight-byte integer. The offset moves past it; where it is cut short, the offset stays.
pub fn read_u64(data: &[u8], offset: &mut usize) -> (result: Result<u64, ProtocolError>)
    ensures
        match parse_u64(data@, *old(offset) as int) {
            Err(e) => result == Err::<u64, ProtocolError>(e) && *final(offset) == *old(offset),
            Ok((value, end)) => result == Ok::<u64, ProtocolError>(value) && *final(offset) == end,
        },
{
    if *offset > data.len() || data.len() - *offset < 8 {
        return Err(ProtocolError::UnderflowU64);
    }
    let value: u64 = value_u64(data, *offset);
    *offset = *offset + 8;
    Ok(value)
}

/// Reads a text. The offset moves past it; where only its length can be read, past the length.
pub fn read_string(data: &[u8], offset: &mut usize) -> (result: Result<String, ProtocolError>)
    ensures
        match parse_string(data@, *old(offset) as int) {
            Err(e) => {
                &&& result == Err::<String, ProtocolError>(e)
                &&& *final(offset) == *old(offset) + (if e is UnderflowU32 { 0int } else { 4int })
            },
            Ok((text, end)) => result is Ok && result->Ok_0@ == text && *final(offset) == end,
        },
{
    let len: usize = match read_u32(data, offset) {
        Ok(n) => n as usize,
        Err(e) => return Err(e),
    };
    if len > data.len() - *offset {
        return Err(ProtocolError::UnderflowString);
    }
    let bytes = vstd::slice::slice_to_vec(vstd::slice::slice_subrange(data, *offset, *offset + len));
    match utf8_decode(bytes) {
        None => Err(ProtocolError::InvalidUtf8),
        Some(s) => {
            *offset = *offset + len;
            Ok(s)
        },
    }
}

/// Reads a byte string. The offset moves past it; where only its length can be read, past the
/// length.
pub fn read_bytes(data: &[u8], offset: &mut usize) -> (result: Result<Vec<u8>, ProtocolError>)
    ensures
        match parse_bytes(data@, *old(offset) as int) {
            Err(e) => {
                &&& result == Err::<Vec<u8>, ProtocolError>(e)
                &&& *final(offset) == *old(offset) + (if e is UnderflowU32 { 0int } else { 4int })
            },
            Ok((bytes, end)) => result is Ok && result->Ok_0@ == bytes && *final(offset) == end,
        },
{
    let len: usize = match read_u32(data, offset) {
        Ok(n) => n as usize,
        Err(e) => return Err(e),
    };
    if len > data.len() - *offset {
        return Err(ProtocolError::UnderflowBytes);
    }
    let bytes = vstd::slice::slice_to_vec(vstd::slice::slice_subrange(data, *offset, *offset + len));
    *offset = *offset + len;
    Ok(bytes)
}

/// Reads a flag. The offset moves past it; where there is none, the offset stays.
pub fn read_bool(data: &[u8], offset: &mut usize) -> (result: Result<bool, ProtocolError>)
    ensures
        match parse_bool(data@, *old(offset) as int) {
            Err(e) => result == Err::<bool, ProtocolError>(e) && *final(offset) == *old(offset),
            Ok((value, end)) => result == Ok::<bool, ProtocolError>(value) && *final(offset) == end,
        },
{
    if *offset >= data.len() {
        return Err(ProtocolError::UnderflowBool);
    }
    let value = data[*offset] != 0;
    *offset = *offset + 1;
    Ok(value)
}

/// Reads `N` bytes. The offset moves past them; where they are cut short, the offset stays.
pub fn read_fixed_bytes<const N: usize>(data: &[u8], offset: &mut usize) -> (result: Result<
    [u8; N],
    ProtocolError,
>)
    ensures
        match parse_fixed(data@, *old(offset) as int, N as int) {
            Err(e) => result == Err::<[u8; N], ProtocolError>(e) && *final(offset) == *old(offset),
            Ok((bytes, end)) => result is Ok && result->Ok_0@ == bytes && *final(offset) == end,
        },
{
    if *offset > data.len() || data.len() - *offset < N {
        return Err(ProtocolError::UnderflowFixed);
    }
    let mut arr = [0u8;N];
    let mut i: usize = 0;
    while i < N
        invariant
            i <= N,
            *offset + N <= data@.len(),
            *offset == *old(offset),
            forall|j: int| 0 <= j < i ==> arr@[j] == data@[*offset + j],
        decreases N - i,
    {
        assert(*offset + i < data.len());
        arr[i] = data[*offset + i];
        i = i + 1;
    }
    assert(arr@ =~= data@.subrange(*offset as int, *offset + N));
    *offset = *offset + N;
    Ok(arr)
}

/// Reads the list of a request for chunks.
fn read_u32s(data: &[u8], offset: &mut usize, count: u32) -> (result: Result<
    Vec<u32>,
    ProtocolError,
>)
    requires
        *old(offset) <= data@.len(),
    ensures
        match parse_u32s(data@, *old(offset) as int, count as int) {
            Err(e) => result == Err::<Vec<u32>, ProtocolError>(e),
            Ok(values) => result is Ok && result->Ok_0@ == values,
        },
{
    let mut values: Vec<u32> = Vec::new();
    let mut i: u32 = 0;
    while i < count
        invariant
            i <= count,
            *offset == *old(offset) + 4 * i,
            *offset <= data@.len(),
            values@.len() == i,
            forall|j: int|
                0 <= j < i ==> values@[j] == le_value(
                    data@.subrange(*old(offset) + 4 * j, *old(offset) + 4 * j + 4),
                ) as u32,
        decreases count - i,
    {
        match read_u32(data, offset) {
            Ok(value) => values.push(value),
            Err(e) => return Err(e),
        }
        i = i + 1;
    }
    proof {
        let expected = parse_u32s(data@, *old(offset) as int, count as int);
        assert(values@ =~= expected->Ok_0);
    }
    Ok(values)
}

/// Reads the announcement of a file.
fn deserialize_file_info(data: &[u8]) -> (result: Result<FileInfo, ProtocolError>)
    requires
        data@.len() > 0,
    ensures
        match decode_file_info(data@) {
            Err(e) => result == Err::<FileInfo, ProtocolError>(e),
            Ok(message) => result is Ok && result->Ok_0@ == message,
        },
{
    let mut offset: usize = 1;
    let name = match read_string(data, &mut offset) {
        Ok(value) => value,
        Err(e) => return Err(e),
    };
    let size: u64 = match read_u64(data, &mut offset) {
        Ok(value) => value,
        Err(e) => return Err(e),
    };
    let chunks: u32 = match read_u32(data, &mut offset) {
        Ok(value) => value,
        Err(e) => return Err(e),
    };
    let sender_address = match read_string(data, &mut offset) {
        Ok(value) => value,
        Err(e) => return Err(e),
    };
    Ok(FileInfo { name, size, chunks, sender_address })
}

/// Reads a chunk.
fn deserialize_file_chunk(data: &[u8]) -> (result: Result<FileChunk, ProtocolError>)
    requires
        data@.len() > 0,
    ensures
        match decode_file_chunk(data@) {
            Err(e) => result == Err::<FileChunk, ProtocolError>(e),
            Ok(message) => result is Ok && result->Ok_0@ == message,
        },
{
    let mut offset: usize = 1;
    let index: u32 = match read_u32(data, &mut offset) {
        Ok(value) => value,
        Err(e) => return Err(e),
    };
    let total: u32 = match read_u32(data, &mut offset) {
        Ok(value) => value,
        Err(e) => return Err(e),
    };
    let chunk_data = match read_bytes(data, &mut offset) {
        Ok(value) => value,
        Err(e) => return Err(e),
    };
    let is_last = match read_bool(data, &mut offset) {
        Ok(value) => value,
        Err(e) => return Err(e),
    };
    Ok(FileChunk { index, total, data: chunk_data, is_last })
}

/// Reads a request for chunks.
fn deserialize_resend_request(data: &[u8]) -> (result: Result<ResendRequest, ProtocolError>)
    requires
        data@.len() > 0,
    ensures
        match decode_resend_request(data@) {
            Err(e) => result == Err::<ResendRequest, ProtocolError>(e),
            Ok(message) => result is Ok && result->Ok_0@ == message,
        },
{
    let mut offset: usize = 1;
    let file_name = match read_string(data, &mut offset) {
        Ok(value) => value,
        Err(e) => return Err(e),
    };
    let count: u32 = match read_u32(data, &mut offset) {
        Ok(value) => value,
        Err(e) => return Err(e),
    };
    let missing_indices = match read_u32s(data, &mut offset, count) {
        Ok(value) => value,
        Err(e) => return Err(e),
    };
    Ok(ResendRequest { file_name, missing_indices })
}

/// Reads a completion notice.
fn deserialize_transfer_complete(data: &[u8]) -> (result: Result<TransferComplete, ProtocolError>)
    requires
        data@.len() > 0,
    ensures
        match decode_transfer_complete(data@) {
            Err(e) => result == Err::<TransferComplete, ProtocolError>(e),
            Ok(message) => result is Ok && result->Ok_0@ == message,
        },
{
    let mut offset: usize = 1;
    let file_name = match read_string(data, &mut offset) {
        Ok(value) => value,
        Err(e) => return Err(e),
    };
    let ripemd160_hash = match read_fixed_bytes::<20>(data, &mut offset) {
        Ok(value) => value,
        Err(e) => return Err(e),
    };
    Ok(TransferComplete { file_name, ripemd160_hash })
}

/// Reads an offer.
fn deserialize_transfer_offer(data: &[u8]) -> (result: Result<TransferOffer, ProtocolError>)
    requires
        data@.len() > 0,
    ensures
        match decode_transfer_offer(data@) {
            Err(e) => result == Err::<TransferOffer, ProtocolError>(e),
            Ok(message) => result is Ok && result->Ok_0@ == message,
        },
{
    let mut offset: usize = 1;
    let file_name = match read_string(data, &mut offset) {
        Ok(value) => value,
        Err(e) => return Err(e),
    };
    let size: u64 = match read_u64(data, &mut offset) {
        Ok(value) => value,
        Err(e) => return Err(e),
    };
    let sender_address = match read_string(data, &mut offset) {
        Ok(value) => value,
        Err(e) => return Err(e),
    };
    Ok(TransferOffer { file_name, size, sender_address })
}

/// Reads an answer to an offer.
fn deserialize_transfer_accept(data: &[u8]) -> (result: Result<TransferAccept, ProtocolError>)
    requires
        data@.len() > 0,
    ensures
        match decode_transfer_accept(data@) {
            Err(e) => result == Err::<TransferAccept, ProtocolError>(e),
            Ok(message) => result is Ok && result->Ok_0@ == message,
        },
{
    let mut offset: usize = 1;
    let file_name = match read_string(data, &mut offset) {
        Ok(value) => value,
        Err(e) => return Err(e),
    };
    let accepted = match read_bool(data, &mut offset) {
        Ok(value) => value,
        Err(e) => return Err(e),
    };
    Ok(TransferAccept { file_name, accepted })
}

/// The message that bytes hold, or the first thing that is wrong with them.
pub fn deserialize_message(data: &[u8]) -> (result: Result<BinaryMessage, ProtocolError>)
    ensures
        match decode(data@) {
            Err(e) => result == Err::<BinaryMessage, ProtocolError>(e),
            Ok(message) => result is Ok && result->Ok_0@ == message,
        },
{
    if data.len() == 0 {
        return Err(ProtocolError::EmptyMessage);
    }
    let msg_type: u8 = data[0];
    if msg_type == MSG_TYPE_FILE_INFO {
        match deserialize_file_info(data) {
            Ok(info) => Ok(BinaryMessage::FileInfo(info)),
            Err(e) => Err(e),
        }
    } else if msg_type == MSG_TYPE_FILE_CHUNK {
        match deserialize_file_chunk(data) {
            Ok(chunk) => Ok(BinaryMessage::FileChunk(chunk)),
            Err(e) => Err(e),
        }
    } else if msg_type == MSG_TYPE_RESEND_REQUEST {
        match deserialize_resend_request(data) {
            Ok(req) => Ok(BinaryMessage::ResendRequest(req)),
            Err(e) => Err(e),
        }
    } else if msg_type == MSG_TYPE_TRANSFER_COMPLETE {
        match deserialize_transfer_complete(data) {
            Ok(tc) => Ok(BinaryMessage::TransferComplete(tc)),
            Err(e) => Err(e),
        }
    } else if msg_type == MSG_TYPE_TRANSFER_OFFER {
        match deserialize_transfer_offer(data) {
            Ok(offer) => Ok(BinaryMessage::TransferOffer(offer)),
            Err(e) => Err(e),
        }
    } else if msg_type == MSG_TYPE_TRANSFER_ACCEPT {
        match deserialize_transfer_accept(data) {
            Ok(accept) => Ok(BinaryMessage::TransferAccept(accept)),
            Err(e) => Err(e),
        }
    } else {
        Err(ProtocolError::UnknownType(msg_type))
    }
}

/// The digest in hexadecimal, two digits for each byte.
pub fn hash_to_hex(hash: &[u8; 20]) -> (hex: String)
    ensures
        hex@ == hex_text(hash@),
{
    let mut hex = String::new();
    let mut i: usize = 0;
    while i < 20
        invariant
            i <= 20,
            hex@ == hex_text(hash@.take(i as int)),
        decreases 20 - i,
    {
        let b: u8 = hash[i];
        hex.push(hex_digit_of(b / 16));
        hex.push(hex_digit_of(b % 16));
        i = i + 1;
        assert(hex@ =~= hex_text(hash@.take(i as int)));
    }
    assert(hash@.take(20) =~= hash@);
    hex
}

impl ProtocolError {
    /// What the error is called.
    pub open spec fn text(self) -> Seq<char> {
        match self {
            ProtocolError::EmptyMessage => "Empty message"@,
            ProtocolError::UnknownType(t) => "Unknown message type: "@ + decimal(t as nat),
            ProtocolError::UnderflowU32 => "Buffer underflow reading u32"@,
            ProtocolError::UnderflowU64 => "Buffer underflow reading u64"@,
            ProtocolError::UnderflowString => "Buffer underflow reading string"@,
            ProtocolError::UnderflowBytes => "Buffer underflow reading bytes"@,
            ProtocolError::UnderflowBool => "Buffer underflow reading bool"@,
            ProtocolError::UnderflowFixed => "Buffer underflow reading fixed bytes"@,
            ProtocolError::InvalidUtf8 => "Invalid UTF-8 in string"@,
        }
    }

    /// The text of the error.
    pub fn message(&self) -> (s: String)
        ensures
            s@ == self.text(),
    {
        match self {
            ProtocolError::EmptyMessage => owned("Empty message"),
            ProtocolError::UnknownType(t) => joined(
                "Unknown message type: ",
                decimal_of(*t as u64).as_str(),
            ),
            ProtocolError::UnderflowU32 => owned("Buffer underflow reading u32"),
            ProtocolError::UnderflowU64 => owned("Buffer underflow reading u64"),
            ProtocolError::UnderflowString => owned("Buffer underflow reading string"),
            ProtocolError::UnderflowBytes => owned("Buffer underflow reading bytes"),
            ProtocolError::UnderflowBool => owned("Buffer underflow reading bool"),
            ProtocolError::UnderflowFixed => owned("Buffer underflow reading fixed bytes"),
            ProtocolError::InvalidUtf8 => owned("Invalid UTF-8 in string"),
        }
    }
}

} // verus!
