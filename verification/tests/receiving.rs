use nymx::digest::FileHasher;
use nymx::protocol::{
    deserialize_message, serialize_file_chunk, serialize_file_info, serialize_resend_request,
    serialize_transfer_offer, BinaryMessage, FileChunk, FileInfo, ResendRequest, TransferOffer,
};
use nymx::receive::{
    check_and_request_resend, chunk_written, file_created, handle_file_chunk, handle_file_info,
    next_chunk_fits, resend_attempted, send_transfer_complete, take_next_chunk, ReceiveState,
    ResendStep, NANOS_PER_SEC,
};
use nymx::receiver::{Receiver, ReceiverAction};

fn info(name: &str, chunks: u32) -> FileInfo {
    FileInfo { name: name.to_string(), size: 9, chunks, sender_address: "alice".to_string() }
}

fn chunk(index: u32, total: u32, data: &[u8]) -> FileChunk {
    FileChunk { index, total, data: data.to_vec(), is_last: index + 1 == total }
}

/// A chunk arrives, and what can be written is written.
fn deliver(state: &mut ReceiveState, c: FileChunk, now: u64, out: &mut Vec<u8>) -> Vec<i32> {
    let mut progress = Vec::new();
    handle_file_chunk(c, now, state);
    loop {
        assert!(next_chunk_fits(state));
        match take_next_chunk(state) {
            Some(c) => {
                out.extend_from_slice(&c.data);
                let report = chunk_written(c.is_last, state);
                if let Some(p) = report.progress {
                    progress.push(p);
                }
                assert_eq!(report.ended, !state.file_open);
            },
            None => return progress,
        }
    }
}

fn started(chunks: u32) -> ReceiveState {
    let mut state = ReceiveState::new("S1".to_string(), 0);
    assert!(handle_file_info(&info("f", chunks), 5, &mut state));
    file_created(&mut state);
    state
}

fn digest_of(data: &[u8]) -> String {
    let mut hasher = FileHasher::new();
    hasher.update(data);
    hasher.hex_digest()
}

#[test]
fn chunks_in_any_order_give_the_file() {
    let pieces: [&[u8]; 4] = [b"ab", b"cde", b"", b"fghi"];
    let orders: [&[u32]; 4] = [&[0, 1, 2, 3], &[3, 2, 1, 0], &[2, 0, 0, 2, 3, 1], &[1, 3, 0, 1, 2]];
    for order in orders {
        let mut state = started(4);
        let mut out = Vec::new();
        for i in order {
            deliver(&mut state, chunk(*i, 4, pieces[*i as usize]), 6, &mut out);
        }
        assert_eq!(out, b"abcdefghi");
        assert!(state.is_complete());
        assert_eq!(state.next_expected_index, 4);
        assert_eq!(state.chunks_written, 4);
        assert!(state.received_chunks.is_empty());
        let notice = send_transfer_complete(&state).unwrap();
        assert_eq!(notice.sender_address, "alice");
        assert_eq!(notice.hash, digest_of(b"abcdefghi"));
        match deserialize_message(&notice.payload) {
            Ok(BinaryMessage::TransferComplete(tc)) => {
                assert_eq!(tc.file_name, "f");
                assert_eq!(nymx::protocol::hash_to_hex(&tc.ripemd160_hash), notice.hash);
            },
            _ => panic!("not a notice"),
        }
    }
}

#[test]
fn only_a_beginning_is_written() {
    let mut state = started(3);
    let mut out = Vec::new();
    deliver(&mut state, chunk(2, 3, b"c"), 6, &mut out);
    assert!(out.is_empty());
    deliver(&mut state, chunk(0, 3, b"a"), 6, &mut out);
    assert_eq!(out, b"a");
    assert!(state.file_open);
    assert!(!state.is_complete());
    assert_eq!(state.chunks_written, 1);
    assert_eq!(state.next_expected_index, 1);
}

#[test]
fn progress_is_reported_when_it_changes() {
    let mut state = started(3);
    let mut out = Vec::new();
    assert_eq!(deliver(&mut state, chunk(0, 3, b"a"), 6, &mut out), vec![33]);
    assert_eq!(deliver(&mut state, chunk(1, 3, b"b"), 6, &mut out), vec![66]);
    assert_eq!(deliver(&mut state, chunk(2, 3, b"c"), 6, &mut out), vec![100]);
    let mut many = started(1000);
    let mut reports = 0;
    for i in 0..10 {
        reports += deliver(&mut many, chunk(i, 1000, b"x"), 6, &mut out).len();
    }
    assert_eq!(reports, 2);
}

#[test]
fn a_chunk_marked_as_the_last_closes_an_incomplete_file() {
    let mut state = started(5);
    handle_file_chunk(
        FileChunk { index: 0, total: 5, data: vec![1], is_last: true },
        6,
        &mut state,
    );
    let c = take_next_chunk(&mut state).unwrap();
    let report = chunk_written(c.is_last, &mut state);
    assert!(report.ended && !report.whole);
    assert!(!state.file_open && !state.is_complete());
}

#[test]
fn a_file_without_a_number_of_chunks_ends_with_the_last() {
    let mut state = started(0);
    let mut out = Vec::new();
    for i in 0..3 {
        deliver(
            &mut state,
            FileChunk { index: i, total: 0, data: vec![i as u8], is_last: i == 2 },
            6,
            &mut out,
        );
    }
    assert_eq!(out, vec![0, 1, 2]);
    assert!(!state.file_open && !state.is_complete());
}

#[test]
fn without_an_open_file_chunks_are_dropped() {
    let mut state = ReceiveState::new("S1".to_string(), 0);
    handle_file_chunk(chunk(0, 1, b"a"), 9, &mut state);
    assert!(state.received_chunks.is_empty());
    assert_eq!(state.last_activity, 0);
    assert!(take_next_chunk(&mut state).is_none());
}

#[test]
fn a_file_without_a_name_is_not_created() {
    let mut state = ReceiveState::new("S1".to_string(), 0);
    assert!(!handle_file_info(&info("", 1), 5, &mut state));
    assert_eq!(state.total_chunks, 1);
    assert_eq!(state.sender_address.as_deref(), Some("alice"));
}

#[test]
fn a_chunk_that_could_not_be_written_counts_as_missing() {
    let mut state = started(2);
    handle_file_chunk(chunk(0, 2, b"a"), 6, &mut state);
    assert!(take_next_chunk(&mut state).is_some());
    assert_eq!(state.chunks_written, 0);
    let later = 6 + 60 * NANOS_PER_SEC;
    match check_and_request_resend(later, &mut state) {
        ResendStep::Request(task) => assert_eq!(task.request.missing_indices, vec![0, 1]),
        _ => panic!("no request"),
    }
}

#[test]
fn missing_chunks_are_asked_for_after_a_minute() {
    let mut state = started(5);
    let mut out = Vec::new();
    deliver(&mut state, chunk(0, 5, b"a"), 10, &mut out);
    deliver(&mut state, chunk(3, 5, b"d"), 10, &mut out);
    let minute = 60 * NANOS_PER_SEC;
    assert!(matches!(
        check_and_request_resend(10 + minute - 1, &mut state),
        ResendStep::Nothing
    ));
    assert!(matches!(check_and_request_resend(0, &mut state), ResendStep::Nothing));
    match check_and_request_resend(10 + minute, &mut state) {
        ResendStep::Request(task) => {
            assert_eq!(task.request.missing_indices, vec![1, 2, 4]);
            assert_eq!(task.round, 1);
            assert_eq!(task.sender_address.as_deref(), Some("alice"));
            match deserialize_message(&task.payload) {
                Ok(BinaryMessage::ResendRequest(r)) => {
                    assert_eq!(r.file_name, "f");
                    assert_eq!(r.missing_indices, vec![1, 2, 4]);
                },
                _ => panic!("not a request"),
            }
        },
        _ => panic!("no request"),
    }
    resend_attempted(10 + minute, &mut state);
    assert!(matches!(
        check_and_request_resend(10 + minute, &mut state),
        ResendStep::Nothing
    ));
    for i in [4u32, 2, 1] {
        let data = [b'a' + i as u8];
        deliver(&mut state, chunk(i, 5, &data), 11 + minute, &mut out);
    }
    assert_eq!(out, b"abcde");
    assert!(state.is_complete());
}

#[test]
fn after_ten_rounds_the_file_is_given_up() {
    let mut state = started(2);
    let mut now = 5;
    for round in 1..=10u32 {
        now += 60 * NANOS_PER_SEC;
        match check_and_request_resend(now, &mut state) {
            ResendStep::Request(task) => assert_eq!(task.round, round),
            _ => panic!("no request"),
        }
        resend_attempted(now, &mut state);
    }
    now += 60 * NANOS_PER_SEC;
    assert!(matches!(check_and_request_resend(now, &mut state), ResendStep::GaveUp));
    assert!(!state.file_open);
    assert!(matches!(
        check_and_request_resend(now + 60 * NANOS_PER_SEC, &mut state),
        ResendStep::Nothing
    ));
    let mut out = Vec::new();
    deliver(&mut state, chunk(0, 2, b"a"), now, &mut out);
    assert!(out.is_empty());
}

#[test]
fn nothing_is_asked_for_when_all_chunks_wait() {
    let mut state = started(1);
    handle_file_chunk(chunk(0, 1, b"a"), 6, &mut state);
    assert!(matches!(
        check_and_request_resend(6 + 60 * NANOS_PER_SEC, &mut state),
        ResendStep::Nothing
    ));
    assert_eq!(state.resend_rounds, 0);
}

#[test]
fn without_an_address_there_is_no_notice() {
    let state = ReceiveState::new("S1".to_string(), 0);
    assert!(send_transfer_complete(&state).is_none());
}

fn offer(sender: &str, size: u64) -> Vec<u8> {
    serialize_transfer_offer(
        &TransferOffer { file_name: "f".to_string(), size, sender_address: sender.to_string() },
    )
}

fn answer(receiver: &mut Receiver, raw: &[u8]) -> (bool, Option<String>) {
    match receiver.handle_message("tag", raw, 1) {
        ReceiverAction::Answer(a) => {
            assert_eq!(a.offer.file_name, "f");
            match deserialize_message(&a.payload) {
                Ok(BinaryMessage::TransferAccept(t)) => {
                    assert_eq!(t.file_name, "f");
                    assert_eq!(t.accepted, a.accepted);
                },
                _ => panic!("not an answer"),
            }
            (a.accepted, a.reason)
        },
        _ => panic!("no answer"),
    }
}

#[test]
fn without_rules_every_offer_is_accepted() {
    let mut receiver = Receiver::new(None, None);
    assert_eq!(answer(&mut receiver, &offer("anyone", u64::MAX)), (true, None));
}

#[test]
fn offers_are_judged_by_whitelist_and_quota() {
    let mut receiver = Receiver::new(Some(vec!["alice".to_string()]), Some(2));
    let two_mib = 2 * 1024 * 1024;
    assert_eq!(answer(&mut receiver, &offer("alice", two_mib)), (true, None));
    assert_eq!(
        answer(&mut receiver, &offer("alice", two_mib + 1)),
        (false, Some("exceeds quota of 2 MiB (offered: 2.0 MiB)".to_string()))
    );
    assert_eq!(
        answer(&mut receiver, &offer("bob", 1)),
        (false, Some("not in whitelist".to_string()))
    );
    assert_eq!(
        answer(&mut receiver, &offer("bob", two_mib + 1)),
        (false, Some("not in whitelist AND exceeds quota (max 2 MiB)".to_string()))
    );
}

fn write_all(receiver: &mut Receiver, tag: &str) -> Vec<u8> {
    let mut out = Vec::new();
    while let Some(c) = receiver.take_next_chunk(tag) {
        out.extend_from_slice(&c.data);
        receiver.chunk_written(tag, c.is_last);
    }
    out
}

#[test]
fn two_senders_do_not_meet() {
    let mut receiver = Receiver::new(None, None);
    for (tag, name) in [("t2", "b"), ("t1", "a")] {
        let raw = serialize_file_info(&info(name, 2));
        assert!(matches!(
            receiver.handle_message(tag, &raw, 1),
            ReceiverAction::Announced { create: true }
        ));
        receiver.file_created(tag);
    }
    assert_eq!(receiver.tags(), vec!["t1".to_string(), "t2".to_string()]);
    assert_eq!(receiver.reception("t2").unwrap().sender_id, "S1");
    assert_eq!(receiver.reception("t1").unwrap().sender_id, "S2");
    let mut written = Vec::new();
    for (tag, index, data) in [("t1", 1, "b"), ("t2", 0, "x"), ("t1", 0, "a"), ("t2", 1, "y")] {
        let raw = serialize_file_chunk(&chunk(index, 2, data.as_bytes()));
        assert!(matches!(receiver.handle_message(tag, &raw, 2), ReceiverAction::Chunk));
        written.push(write_all(&mut receiver, tag));
        match receiver.finish(tag) {
            Some(notice) => assert_eq!(notice.unwrap().sender_address, "alice"),
            None => assert!(receiver.reception(tag).is_some()),
        }
    }
    assert_eq!(written, vec![b"".to_vec(), b"x".to_vec(), b"ab".to_vec(), b"y".to_vec()]);
    assert!(receiver.tags().is_empty());
}

#[test]
fn a_second_announcement_keeps_the_sender_id() {
    let mut receiver = Receiver::new(None, None);
    let raw = serialize_file_info(&info("a", 2));
    receiver.handle_message("t", &raw, 1);
    receiver.handle_message("t", &raw, 2);
    assert_eq!(receiver.reception("t").unwrap().sender_id, "S1");
    receiver.handle_message("u", &raw, 3);
    assert_eq!(receiver.reception("u").unwrap().sender_id, "S3");
}

#[test]
fn other_messages_change_nothing() {
    let mut receiver = Receiver::new(None, None);
    let raw = serialize_file_chunk(&chunk(0, 1, b"a"));
    assert!(matches!(receiver.handle_message("t", &raw, 1), ReceiverAction::UnknownSender));
    let request = serialize_resend_request(
        &ResendRequest { file_name: "f".to_string(), missing_indices: vec![1] },
    );
    assert!(matches!(receiver.handle_message("t", &request, 1), ReceiverAction::Ignore));
    assert!(matches!(receiver.handle_message("t", &[], 1), ReceiverAction::Ignore));
    assert!(matches!(receiver.handle_message("t", &[9, 9], 1), ReceiverAction::Ignore));
    assert!(receiver.tags().is_empty());
}

#[test]
fn closed_receptions_are_forgotten() {
    let mut receiver = Receiver::new(None, None);
    let raw = serialize_file_info(&info("a", 2));
    for tag in ["t1", "t2", "t3"] {
        receiver.handle_message(tag, &raw, 1);
    }
    receiver.file_created("t2");
    receiver.prune();
    assert_eq!(receiver.tags(), vec!["t2".to_string()]);
    match receiver.check_resend("t2", 1 + 60 * NANOS_PER_SEC) {
        ResendStep::Request(task) => assert_eq!(task.request.missing_indices, vec![0, 1]),
        _ => panic!("no request"),
    }
    receiver.resend_attempted("t2", 2 + 60 * NANOS_PER_SEC);
    assert_eq!(receiver.reception("t2").unwrap().last_activity, 2 + 60 * NANOS_PER_SEC);
    assert!(receiver.finish("t2").is_none());
}

#[test]
fn a_file_that_was_cut_arrives_whole() {
    let file: Vec<u8> = (0..150_000u32).map(|i| (i % 253) as u8).collect();
    let pieces: Vec<&[u8]> = file.chunks(65_536).collect();
    let total = pieces.len() as u32;
    assert_eq!(nymx::send::chunk_count(file.len() as u64), pieces.len());
    let mut state = started(total);
    let mut out = Vec::new();
    for i in (0..total).rev() {
        deliver(&mut state, chunk(i, total, pieces[i as usize]), 6, &mut out);
    }
    assert_eq!(out, file);
    let notice = send_transfer_complete(&state).unwrap();
    assert_eq!(
        nymx::send_session::judge_hash(&notice.hash, &digest_of(&file)),
        nymx::send_session::Outcome::Match
    );
}
