use nymx::protocol::{
    deserialize_message, hash_to_hex, serialize_file_chunk, serialize_file_info,
    serialize_resend_request, serialize_transfer_accept, serialize_transfer_complete,
    serialize_transfer_offer, BinaryMessage, FileChunk, FileInfo, ProtocolError, ResendRequest,
    TransferAccept, TransferComplete, TransferOffer,
};

fn error_of(data: &[u8]) -> ProtocolError {
    match deserialize_message(data) {
        Ok(_) => panic!("read"),
        Err(e) => e,
    }
}

#[test]
fn file_info_comes_back() {
    let info = FileInfo {
        name: "päper.txt".to_string(),
        size: 0x0102_0304_0506_0708,
        chunks: 3,
        sender_address: "a.b@c".to_string(),
    };
    let mut bytes = serialize_file_info(&info);
    bytes.push(9);
    match deserialize_message(&bytes) {
        Ok(BinaryMessage::FileInfo(i)) => {
            assert_eq!(i.name, info.name);
            assert_eq!(i.size, info.size);
            assert_eq!(i.chunks, 3);
            assert_eq!(i.sender_address, "a.b@c");
        },
        _ => panic!("not a file info"),
    }
}

#[test]
fn file_info_has_its_binary_form() {
    let info = FileInfo {
        name: "ab".to_string(),
        size: 258,
        chunks: 7,
        sender_address: "x".to_string(),
    };
    let expected: Vec<u8> = vec![
        1, 2, 0, 0, 0, 97, 98, 2, 1, 0, 0, 0, 0, 0, 0, 7, 0, 0, 0, 1, 0, 0, 0, 120,
    ];
    assert_eq!(serialize_file_info(&info), expected);
}

#[test]
fn file_chunk_comes_back() {
    let chunk = FileChunk { index: 5, total: 9, data: vec![1, 2, 3], is_last: true };
    let bytes = serialize_file_chunk(&chunk);
    assert_eq!(bytes, vec![2, 5, 0, 0, 0, 9, 0, 0, 0, 3, 0, 0, 0, 1, 2, 3, 1]);
    match deserialize_message(&bytes) {
        Ok(BinaryMessage::FileChunk(c)) => {
            assert_eq!((c.index, c.total, c.data, c.is_last), (5, 9, vec![1, 2, 3], true));
        },
        _ => panic!("not a chunk"),
    }
}

#[test]
fn a_flag_is_any_byte_but_zero() {
    let accept = TransferAccept { file_name: "f".to_string(), accepted: false };
    let mut bytes = serialize_transfer_accept(&accept);
    let last = bytes.len() - 1;
    for flag in [0u8, 1, 2, 255] {
        bytes[last] = flag;
        match deserialize_message(&bytes) {
            Ok(BinaryMessage::TransferAccept(a)) => assert_eq!(a.accepted, flag != 0),
            _ => panic!("not an answer"),
        }
    }
}

#[test]
fn resend_request_comes_back() {
    let req = ResendRequest { file_name: "f".to_string(), missing_indices: vec![0, 7, u32::MAX] };
    match deserialize_message(&serialize_resend_request(&req)) {
        Ok(BinaryMessage::ResendRequest(r)) => {
            assert_eq!(r.file_name, "f");
            assert_eq!(r.missing_indices, vec![0, 7, u32::MAX]);
        },
        _ => panic!("not a request"),
    }
}

#[test]
fn transfer_complete_comes_back() {
    let mut hash = [0u8; 20];
    hash[0] = 0xab;
    hash[19] = 0x0f;
    let tc = TransferComplete { file_name: "f".to_string(), ripemd160_hash: hash };
    match deserialize_message(&serialize_transfer_complete(&tc)) {
        Ok(BinaryMessage::TransferComplete(t)) => assert_eq!(t.ripemd160_hash, hash),
        _ => panic!("not a notice"),
    }
    assert_eq!(hash_to_hex(&hash), "ab0000000000000000000000000000000000000f");
}

#[test]
fn transfer_offer_comes_back() {
    let offer = TransferOffer {
        file_name: "f".to_string(),
        size: 77,
        sender_address: "s".to_string(),
    };
    match deserialize_message(&serialize_transfer_offer(&offer)) {
        Ok(BinaryMessage::TransferOffer(o)) => {
            assert_eq!((o.file_name.as_str(), o.size, o.sender_address.as_str()), ("f", 77, "s"));
        },
        _ => panic!("not an offer"),
    }
}

#[test]
fn every_cut_message_is_refused() {
    let info = FileInfo {
        name: "name".to_string(),
        size: 1,
        chunks: 1,
        sender_address: "addr".to_string(),
    };
    let bytes = serialize_file_info(&info);
    for len in 0..bytes.len() {
        assert!(deserialize_message(&bytes[..len]).is_err());
    }
}

#[test]
fn empty_and_unknown_messages_are_refused() {
    assert_eq!(error_of(&[]), ProtocolError::EmptyMessage);
    assert_eq!(error_of(&[0]), ProtocolError::UnknownType(0));
    assert_eq!(error_of(&[200, 1]).message(), "Unknown message type: 200");
    assert_eq!(ProtocolError::EmptyMessage.message(), "Empty message");
}

#[test]
fn each_field_can_be_cut() {
    assert_eq!(error_of(&[1, 1, 0]), ProtocolError::UnderflowU32);
    assert_eq!(error_of(&[1, 0, 0, 0, 0, 1]), ProtocolError::UnderflowU64);
    assert_eq!(error_of(&[1, 2, 0, 0, 0, 97]), ProtocolError::UnderflowString);
    assert_eq!(
        error_of(&[2, 0, 0, 0, 0, 0, 0, 0, 0, 2, 0, 0, 0, 1]),
        ProtocolError::UnderflowBytes
    );
    assert_eq!(error_of(&[6, 0, 0, 0, 0]), ProtocolError::UnderflowBool);
    assert_eq!(error_of(&[4, 0, 0, 0, 0, 1, 2]), ProtocolError::UnderflowFixed);
    assert_eq!(error_of(&[6, 1, 0, 0, 0, 0xff, 1]), ProtocolError::InvalidUtf8);
}

#[test]
fn errors_have_texts() {
    let all = [
        (ProtocolError::UnderflowU32, "Buffer underflow reading u32"),
        (ProtocolError::UnderflowU64, "Buffer underflow reading u64"),
        (ProtocolError::UnderflowString, "Buffer underflow reading string"),
        (ProtocolError::UnderflowBytes, "Buffer underflow reading bytes"),
        (ProtocolError::UnderflowBool, "Buffer underflow reading bool"),
        (ProtocolError::UnderflowFixed, "Buffer underflow reading fixed bytes"),
        (ProtocolError::InvalidUtf8, "Invalid UTF-8 in string"),
    ];
    for (e, text) in all {
        assert_eq!(e.message(), text);
    }
}
