use nymx::parts::{
    parse_part_line, parse_ripemd_file, pause_after, select_parts, FolderEntry, PartsSummary,
};
use nymx::send::{
    build_chunk_header, build_chunk_payload, build_handshake_payload, classify_message,
    classify_text, format_duration, generate_file_tag, handshake_accepted, is_ready_answer,
    parse_reply_payload, resend_offset, tag_from_indices, Incoming,
};
use nymx::send_session::{
    judge_hash, judge_reply, plan_batch, AttemptResult, Outcome, Phase, SendSession,
};

const TAG: &str = "ABCDEFGHIJKLMNOPQRSTUV";

fn session(size: u64) -> SendSession {
    SendSession::new("f.txt".to_string(), size, "hash".to_string(), TAG.to_string())
}

fn reply(hash: &str) -> Vec<u8> {
    format!("{}{}", TAG, hash).into_bytes()
}

#[test]
fn handshake_has_its_binary_form() {
    let mut expected = vec![255u8, 255, 255, 255];
    expected.extend_from_slice(&[0u8; 14]);
    expected.extend_from_slice(b"tag");
    assert_eq!(build_handshake_payload("tag"), expected);
}

#[test]
fn header_has_its_binary_form() {
    let header = build_chunk_header(1, 258, 0x0102030405060708, "ä", "tag");
    let expected: Vec<u8> = vec![
        0, 0, 0, 1, 0, 0, 1, 2, 1, 2, 3, 4, 5, 6, 7, 8, 0, 2, 0xc3, 0xa4, b't', b'a', b'g',
    ];
    assert_eq!(header, expected);
    let mut payload = expected.clone();
    payload.extend_from_slice(b"data");
    assert_eq!(build_chunk_payload(1, 258, 0x0102030405060708, "ä", "tag", b"data"), payload);
}

#[test]
fn lengths_are_cut_to_their_bytes() {
    let long = "x".repeat(65_536 + 3);
    let header = build_chunk_header(0x1_0000_0002, 3, 4, &long, "");
    assert_eq!(&header[0..4], &[0u8, 0, 0, 2]);
    assert_eq!(&header[16..18], &[0u8, 3]);
    assert_eq!(header.len(), 18 + 65_539);
}

#[test]
fn tags_are_made_of_letters_and_digits() {
    let tag = generate_file_tag();
    assert_eq!(tag.len(), 22);
    assert!(tag.bytes().all(|b| b.is_ascii_alphanumeric()));
    let others: Vec<String> = (0..20).map(|_| generate_file_tag()).collect();
    assert!(others.iter().any(|t| *t != tag));
    assert_eq!(tag_from_indices(&vec![0, 25, 26, 51, 52, 61]), "AZaz09");
}

#[test]
fn ready_answers_name_the_tag() {
    assert!(is_ready_answer("READY:abc and more", "abc"));
    assert!(!is_ready_answer("READY:ab", "abc"));
    assert!(handshake_accepted(b"READY:abc", "abc"));
    assert!(!handshake_accepted(b"ready:abc", "abc"));
    assert!(handshake_accepted(b"READY:abc\xff\xfe", "abc"));
}

#[test]
fn messages_after_the_chunks_are_told_apart() {
    assert_eq!(classify_message(b""), Incoming::Empty);
    assert_eq!(classify_message(b"RESEND:17"), Incoming::Resend(17));
    assert_eq!(classify_message(b"RESEND:+3"), Incoming::Resend(3));
    assert_eq!(classify_message(b"RESEND:"), Incoming::BadResend);
    assert_eq!(classify_message(b"RESEND:-1"), Incoming::BadResend);
    assert_eq!(classify_message(b"RESEND:99999999999999999999999"), Incoming::BadResend);
    assert_eq!(classify_message(b"resend:1"), Incoming::Reply);
    assert_eq!(classify_message(b"\xff"), Incoming::Reply);
    assert_eq!(classify_text("RESEND:0"), Incoming::Resend(0));
}

#[test]
fn replies_hold_a_tag_and_a_digest() {
    let (tag, hash) = parse_reply_payload(&reply("0123abc")).unwrap();
    assert_eq!(tag, TAG);
    assert_eq!(hash, "0123abc");
    let (_, none) = parse_reply_payload(TAG.as_bytes()).unwrap();
    assert_eq!(none, "");
    assert_eq!(parse_reply_payload(b"short"), Err("Reply payload too short"));
    let mut broken = reply("ab");
    broken.push(0xff);
    assert_eq!(parse_reply_payload(&broken).unwrap().1, "ab\u{fffd}");
}

#[test]
fn offsets_are_multiples_of_the_chunk_size() {
    assert_eq!(resend_offset(0), Some(0));
    assert_eq!(resend_offset(3), Some(196_608));
    assert_eq!(resend_offset((1 << 48) - 1), Some(((1u64 << 48) - 1) * 65_536));
    assert_eq!(resend_offset(1 << 48), None);
}

#[test]
fn durations_are_put_in_words() {
    assert_eq!(format_duration(0, 5), "0.005s");
    assert_eq!(format_duration(59, 999), "59.999s");
    assert_eq!(format_duration(60, 999), "1m 00s");
    assert_eq!(format_duration(3725, 0), "62m 05s");
}

#[test]
fn a_transfer_goes_its_way() {
    let mut s = session(65_537);
    assert_eq!(s.total_chunks, 2);
    assert_eq!(s.phase, Phase::Handshake);
    assert_eq!(s.handshake_payload(), build_handshake_payload(TAG));
    assert!(!s.handshake_messages(&vec![vec![], vec![]]));
    let ready = format!("READY:{}", TAG).into_bytes();
    assert!(s.handshake_messages(&vec![vec![], ready]));
    assert_eq!(s.phase, Phase::Sending);
    assert_eq!(
        s.chunk_payload(b"xy"),
        build_chunk_payload(0, 2, 65_537, "f.txt", TAG, b"xy")
    );
    assert_eq!(s.chunk_attempted(true), AttemptResult::Sent { attempts: 1 });
    assert_eq!(s.chunk, 1);
    assert_eq!(s.chunk_attempted(false), AttemptResult::Retry { delay_ms: 1000 });
    assert_eq!(s.chunk_attempted(false), AttemptResult::Retry { delay_ms: 2000 });
    assert_eq!(s.chunk_attempted(true), AttemptResult::Sent { attempts: 3 });
    assert_eq!(s.phase, Phase::Waiting);
    assert!(s.wait_on(120_000_000_000 - 1));
    let plan = s.reply_messages(&vec![
        b"RESEND:1".to_vec(), vec![], b"RESEND:x".to_vec(), b"RESEND:0".to_vec(),
    ]);
    assert_eq!(plan.resend, vec![1, 0]);
    assert!(plan.reply.is_none());
    assert_eq!(s.phase, Phase::Waiting);
    let plan = s.reply_messages(&vec![b"RESEND:1".to_vec(), reply("hash"), b"RESEND:0".to_vec()]);
    assert_eq!(plan.resend, vec![1]);
    assert_eq!(plan.reply, Some(1));
    assert_eq!(s.phase, Phase::Ended(Outcome::Match));
}

#[test]
fn a_chunk_is_tried_ten_times() {
    let mut s = session(3 * 65_536);
    s.handshake_answered(true);
    for k in 1..10u64 {
        assert_eq!(s.chunk_attempted(false), AttemptResult::Retry { delay_ms: 1000 * k });
    }
    assert_eq!(s.chunk_attempted(false), AttemptResult::GaveUp);
    assert_eq!(s.failed_chunks, vec![0]);
    assert_eq!(s.chunk, 1);
    s.chunk_attempted(true);
    s.chunk_attempted(true);
    assert_eq!(s.phase, Phase::Waiting);
    assert_eq!(s.failed_chunks, vec![0]);
}

#[test]
fn a_part_with_failed_chunks_is_not_waited_for() {
    let mut s = SendSession::new_part(
        "f".to_string(), 65_536, "h".to_string(), TAG.to_string(), "h",
    );
    assert_eq!(s.phase, Phase::Handshake);
    s.handshake_answered(true);
    for _ in 0..10 {
        s.chunk_attempted(false);
    }
    assert_eq!(s.phase, Phase::Ended(Outcome::ChunksFailed(1)));
}

#[test]
fn a_part_with_another_digest_is_not_sent() {
    let s = SendSession::new_part("f".to_string(), 1, "h".to_string(), TAG.to_string(), "other");
    assert_eq!(s.phase, Phase::Ended(Outcome::UnexpectedHash));
}

#[test]
fn an_empty_file_has_no_chunks() {
    let mut s = session(0);
    s.handshake_answered(true);
    assert_eq!(s.phase, Phase::Waiting);
}

#[test]
fn a_recipient_that_is_not_there_gets_nothing() {
    let mut s = session(1);
    assert!(s.handshake_messages(&vec![b"NO".to_vec()]));
    assert_eq!(s.phase, Phase::Ended(Outcome::Offline));
    let mut s = session(1);
    s.handshake_timed_out();
    assert_eq!(s.phase, Phase::Ended(Outcome::Offline));
    let mut s = session(1);
    s.handshake_failed();
    assert_eq!(s.phase, Phase::Ended(Outcome::HandshakeFailed));
}

#[test]
fn replies_decide() {
    assert_eq!(judge_reply(&reply("hash"), "hash"), Outcome::Match);
    assert_eq!(judge_reply(&reply("other"), "hash"), Outcome::Mismatch);
    assert_eq!(judge_reply(b"x", "hash"), Outcome::BadReply);
    assert_eq!(judge_hash("a", "a"), Outcome::Match);
    assert_eq!(judge_hash("a", "A"), Outcome::Mismatch);
    assert_eq!(plan_batch(&vec![]).reply, None);
    let mut s = session(0);
    s.handshake_answered(true);
    assert!(!s.wait_on(120_000_000_000));
    assert_eq!(s.phase, Phase::Ended(Outcome::NoReply));
}

#[test]
fn outcomes_have_texts() {
    assert_eq!(
        Outcome::UnexpectedHash.message(""),
        "File hash does not match expected hash from ripemd-160.txt"
    );
    assert_eq!(Outcome::HandshakeFailed.message("why"), "Failed to send handshake: why");
    assert_eq!(Outcome::Offline.message(""), "Recipient appears to be offline");
    assert_eq!(Outcome::ChunksFailed(12).message(""), "12 chunks failed to send");
    assert_eq!(Outcome::NoReply.message(""), "Timeout: No reply received");
    assert_eq!(Outcome::BadReply.message(""), "Failed to parse reply: Reply payload too short");
    assert_eq!(Outcome::Mismatch.message(""), "Hash mismatch");
}

const LIST: &str = "RIPEMD-160 checksums\nOperation: split\nOriginal: movie.mp4\nParts: 2\n---\n\n\
                    movie.part2 (5 MiB): bbb\nmovie.part10 (5 MiB): old\n  movie.part10 (x): ccc  \n\
                    no bracket: ddd\nno colon (x)\nodd (1) name (2): a:eee\r\n";

#[test]
fn the_list_of_parts_is_read() {
    let parts = parse_ripemd_file(LIST);
    assert_eq!(
        parts.sorted_keys(),
        vec!["movie.part10".to_string(), "movie.part2".to_string(), "odd (1) name".to_string()]
    );
    assert_eq!(parts.get("movie.part2").unwrap(), "bbb");
    assert_eq!(parts.get("movie.part10").unwrap(), "ccc");
    assert_eq!(parts.get("odd (1) name").unwrap(), "eee");
    assert!(parse_part_line("Parts (1): x").is_none());
    assert_eq!(
        parse_part_line(" a ( : b : c "),
        Some(("a".to_string(), "c".to_string()))
    );
}

fn entry(name: &str, is_file: bool) -> FolderEntry {
    FolderEntry { name: name.to_string(), path: format!("./{}", name), is_file }
}

#[test]
fn parts_are_selected_and_sorted() {
    let expected = parse_ripemd_file(LIST);
    let entries = vec![
        entry("movie.part2", true), entry("movie.part3", true), entry("movie.part10", true),
        entry("odd (1) name", true),
    ];
    let parts = select_parts(&entries, "movie", &expected).ok().unwrap();
    let names: Vec<&str> = parts.iter().map(|p| p.name.as_str()).collect();
    assert_eq!(names, vec!["movie.part10", "movie.part2"]);
    assert_eq!(parts[0].expected_hash, "ccc");
    assert_eq!(parts[1].path, "./movie.part2");
}

#[test]
fn parts_of_one_name_keep_their_order() {
    let expected = parse_ripemd_file("a (1): h\nb (1): h");
    let mut entries = vec![entry("b", true), entry("a", true), entry("b", true), entry("a", false)];
    entries[2].path = "second".to_string();
    let parts = select_parts(&entries, "", &expected).ok().unwrap();
    let paths: Vec<&str> = parts.iter().map(|p| p.path.as_str()).collect();
    assert_eq!(paths, vec!["./a", "./b", "second"]);
}

#[test]
fn a_selection_without_parts_is_refused() {
    let expected = parse_ripemd_file(LIST);
    assert_eq!(
        select_parts(&vec![entry("movie.part2", true)], "film", &expected).err(),
        Some("No files found matching prefix 'film'".to_string())
    );
    assert_eq!(
        select_parts(&vec![entry("movie.part2", true)], "movie", &parse_ripemd_file("")).err(),
        Some("No parts found in ripemd-160.txt".to_string())
    );
}

#[test]
fn every_part_is_counted() {
    let mut summary = PartsSummary::new();
    summary.record(1, "a", Outcome::Match, "");
    summary.record(2, "b", Outcome::Mismatch, "");
    summary.record(3, "c", Outcome::HandshakeFailed, "gone");
    summary.record_error(4, "d", "No such file".to_string());
    assert_eq!(summary.successful_parts, 1);
    let failed: Vec<(usize, &str, &str)> = summary
        .failed_parts
        .iter()
        .map(|p| (p.number, p.filename.as_str(), p.error.as_str()))
        .collect();
    assert_eq!(
        failed,
        vec![
            (2, "b", "Hash mismatch"),
            (3, "c", "Failed to send handshake: gone"),
            (4, "d", "No such file"),
        ]
    );
    assert!(pause_after(0, 2));
    assert!(!pause_after(1, 2));
    assert!(!pause_after(0, 0));
}
