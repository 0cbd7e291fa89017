//! The course of one transfer, as its sender sees it.
//!
//! A transfer starts with a handshake; then the chunks go out in order, each tried a number of times;
//! then the sender waits for the reply and sends again what it is asked for. The session says what is
//! to be done; messages are sent and waited for elsewhere, and the outcome is reported back.
use vstd::prelude::*;
use crate::send::{
    build_chunk_payload, build_handshake_payload, chunk_count, chunks_of, classify_message,
    handshake_accepted, handshake_bytes, header_bytes, incoming, parse_reply_payload, ready_prefix,
    Incoming, FILE_TAG_LEN,
};
use crate::text::{decimal, decimal_of, joined, owned, same_text, utf8_lossy};

verus! {

/// So often a chunk is tried.
pub const MAX_RETRIES: usize = 10;

/// The pause after the first failed try, in milliseconds; it grows by as much with every further one.
pub const RETRY_DELAY_MS: u64 = 1000;

/// So long, in seconds, the reply is waited for.
pub const REPLY_TIMEOUT_SECS: u64 = 120;

/// How a transfer ended.
#[derive(Debug, Clone, Copy, PartialEq, Eq, Structural)]
pub enum Outcome {
    /// The file is not the one that was to be sent.
    UnexpectedHash,
    /// The handshake could not be sent.
    HandshakeFailed,
    /// The recipient did not answer the handshake, or not as it should.
    Offline,
    /// So many chunks could not be sent.
    ChunksFailed(usize),
    /// There was no reply in time.
    NoReply,
    /// The reply could not be read.
    BadReply,
    /// The recipient has the file.
    Match,
    /// The recipient has another file.
    Mismatch,
}

/// How far a transfer is.
#[derive(Debug, Clone, Copy, PartialEq, Eq, Structural)]
pub enum Phase {
    /// The answer to the handshake is waited for.
    Handshake,
    /// Chunks are sent.
    Sending,
    /// The reply is waited for.
    Waiting,
    /// The transfer is over.
    Ended(Outcome),
}

/// A transfer from the sender's side.
pub struct SendSession {
    pub filename: String,
    pub file_size: u64,
    pub total_chunks: usize,
    pub file_tag: String,
    /// The digest of the file in hexadecimal.
    pub sender_hash: String,
    /// Whether chunks that could not be sent end the transfer.
    pub strict: bool,
    pub phase: Phase,
    /// The chunk that is to be sent.
    pub chunk: usize,
    /// How often it was tried.
    pub attempt: usize,
    /// The chunks that could not be sent.
    pub failed_chunks: Vec<usize>,
}

/// What a session stands for.
pub struct Transfer {
    pub filename: Seq<char>,
    pub file_size: u64,
    pub total: nat,
    pub file_tag: Seq<char>,
    pub sender_hash: Seq<char>,
    pub strict: bool,
    pub phase: Phase,
    pub chunk: nat,
    pub attempt: nat,
    pub failed: Seq<usize>,
}

impl View for SendSession {
    type V = Transfer;

    open spec fn view(&self) -> Transfer {
        Transfer {
            filename: self.filename@,
            file_size: self.file_size,
            total: self.total_chunks as nat,
            file_tag: self.file_tag@,
            sender_hash: self.sender_hash@,
            strict: self.strict,
            phase: self.phase,
            chunk: self.chunk as nat,
            attempt: self.attempt as nat,
            failed: self.failed_chunks@,
        }
    }
}

// ---------------------------------------------------------------------------------------------
// The steps of a transfer
// ---------------------------------------------------------------------------------------------

/// What holds of every transfer: it is within its chunks, and within the tries of a chunk.
pub open spec fn on_course(t: Transfer) -> bool {
    &&& t.chunk <= t.total <= usize::MAX
    &&& t.attempt < MAX_RETRIES
    &&& t.failed.len() <= t.chunk
    &&& t.phase is Handshake ==> t.chunk == 0 && t.attempt == 0 && t.failed.len() == 0
    &&& t.phase is Sending ==> t.chunk < t.total
    &&& t.phase is Waiting ==> t.chunk == t.total
}

/// A transfer before its handshake.
pub open spec fn begun(
    filename: Seq<char>,
    file_size: u64,
    sender_hash: Seq<char>,
    file_tag: Seq<char>,
    strict: bool,
) -> Transfer {
    Transfer {
        filename,
        file_size,
        total: if chunks_of(file_size as nat) <= usize::MAX {
            chunks_of(file_size as nat)
        } else {
            usize::MAX as nat
        },
        file_tag,
        sender_hash,
        strict,
        phase: Phase::Handshake,
        chunk: 0,
        attempt: 0,
        failed: Seq::empty(),
    }
}

/// The transfer is over.
pub open spec fn ended(t: Transfer, outcome: Outcome) -> Transfer {
    Transfer { phase: Phase::Ended(outcome), ..t }
}

/// The recipient has answered the handshake. A file without chunks is sent with that.
pub open spec fn answered(t: Transfer, ready: bool) -> Transfer {
    if !ready {
        ended(t, Outcome::Offline)
    } else if t.total == 0 {
        Transfer { phase: Phase::Waiting, ..t }
    } else {
        Transfer { phase: Phase::Sending, ..t }
    }
}

/// The phase once all chunks were tried and `failed` of them could not be sent.
pub open spec fn after_chunks(strict: bool, failed: nat) -> Phase {
    if strict && failed > 0 {
        Phase::Ended(Outcome::ChunksFailed(failed as usize))
    } else {
        Phase::Waiting
    }
}

/// The chunk was tried once more. After a success, or the last try, it is the next one's turn.
pub open spec fn attempted(t: Transfer, ok: bool) -> Transfer {
    if ok || t.attempt + 1 >= MAX_RETRIES {
        let failed = if ok {
            t.failed
        } else {
            t.failed.push(t.chunk as usize)
        };
        Transfer {
            phase: if t.chunk + 1 < t.total {
                Phase::Sending
            } else {
                after_chunks(t.strict, failed.len())
            },
            chunk: t.chunk + 1,
            attempt: 0,
            failed,
            ..t
        }
    } else {
        Transfer { attempt: t.attempt + 1, ..t }
    }
}

/// What a digest in a reply says of the transfer.
pub open spec fn hash_verdict(reply_hash: Seq<char>, sender_hash: Seq<char>) -> Outcome {
    if reply_hash == sender_hash {
        Outcome::Match
    } else {
        Outcome::Mismatch
    }
}

/// What a reply says of the transfer.
pub open spec fn verdict(reply: Seq<u8>, sender_hash: Seq<char>) -> Outcome {
    if reply.len() < FILE_TAG_LEN {
        Outcome::BadReply
    } else {
        hash_verdict(utf8_lossy(reply.skip(FILE_TAG_LEN as int)), sender_hash)
    }
}

/// The first message that has content, if there is one.
pub open spec fn first_with_content(messages: Seq<Vec<u8>>) -> Option<int>
    decreases messages.len(),
{
    if messages.len() == 0 {
        None
    } else {
        match first_with_content(messages.drop_last()) {
            Some(i) => Some(i),
            None => if messages.last()@.len() > 0 {
                Some(messages.len() - 1)
            } else {
                None
            },
        }
    }
}

/// The first message that is a reply, if there is one.
pub open spec fn first_reply(messages: Seq<Vec<u8>>) -> Option<int>
    decreases messages.len(),
{
    if messages.len() == 0 {
        None
    } else {
        match first_reply(messages.drop_last()) {
            Some(i) => Some(i),
            None => if incoming(messages.last()@) == Incoming::Reply {
                Some(messages.len() - 1)
            } else {
                None
            },
        }
    }
}

/// The chunks that some messages ask for, in order.
pub open spec fn requested(messages: Seq<Vec<u8>>) -> Seq<usize>
    decreases messages.len(),
{
    if messages.len() == 0 {
        Seq::empty()
    } else {
        match incoming(messages.last()@) {
            Incoming::Resend(index) => requested(messages.drop_last()).push(index),
            _ => requested(messages.drop_last()),
        }
    }
}

/// What came of a try to send a chunk.
#[derive(Debug, Clone, Copy, PartialEq, Eq, Structural)]
pub enum AttemptResult {
    /// It was sent, with this try.
    Sent { attempts: usize },
    /// It is to be tried again, after so many milliseconds.
    Retry { delay_ms: u64 },
    /// It is not tried again.
    GaveUp,
}

/// What is to be done about messages that came while the reply was waited for.
pub struct BatchPlan {
    /// The chunks that are to be sent again, in order.
    pub resend: Vec<usize>,
    /// Which message is the reply, if one is.
    pub reply: Option<usize>,
}

impl SendSession {
    /// The session stands for a transfer that is on course.
    pub open spec fn wf(self) -> bool {
        on_course(self@)
    }

    /// The transfer of a single file. Chunks that cannot be sent do not end it.
    pub fn new(filename: String, file_size: u64, sender_hash: String, file_tag: String) -> (session:
        SendSession)
        ensures
            session.wf(),
            session@ == begun(filename@, file_size, sender_hash@, file_tag@, false),
    {
        SendSession {
            filename,
            file_size,
            total_chunks: chunk_count(file_size),
            file_tag,
            sender_hash,
            strict: false,
            phase: Phase::Handshake,
            chunk: 0,
            attempt: 0,
            failed_chunks: Vec::new(),
        }
    }

    /// The transfer of a part whose digest is known beforehand. It ends at once if the file has
    /// another one, and when a chunk cannot be sent.
    pub fn new_part(
        filename: String,
        file_size: u64,
        sender_hash: String,
        file_tag: String,
        expected_hash: &str,
    ) -> (session: SendSession)
        ensures
            session.wf(),
            session@ == {
                let t = begun(filename@, file_size, sender_hash@, file_tag@, true);
                if sender_hash@ == expected_hash@ {
                    t
                } else {
                    ended(t, Outcome::UnexpectedHash)
                }
            },
    {
        let as_expected = same_text(sender_hash.as_str(), expected_hash);
        let mut session = SendSession::new(filename, file_size, sender_hash, file_tag);
        session.strict = true;
        if !as_expected {
            session.phase = Phase::Ended(Outcome::UnexpectedHash);
        }
        session
    }

    /// The message of the handshake.
    pub fn handshake_payload(&self) -> (payload: Vec<u8>)
        ensures
            payload@ == handshake_bytes(self@.file_tag),
    {
        build_handshake_payload(self.file_tag.as_str())
    }

    /// The handshake could not be sent.
    pub fn handshake_failed(&mut self)
        requires
            old(self).wf(),
        ensures
            final(self).wf(),
            final(self)@ == ended(old(self)@, Outcome::HandshakeFailed),
    {
        self.phase = Phase::Ended(Outcome::HandshakeFailed);
    }

    /// Nothing came in answer to the handshake in time.
    pub fn handshake_timed_out(&mut self)
        requires
            old(self).wf(),
        ensures
            final(self).wf(),
            final(self)@ == ended(old(self)@, Outcome::Offline),
    {
        self.phase = Phase::Ended(Outcome::Offline);
    }

    /// The recipient has answered the handshake, and is ready or not.
    pub fn handshake_answered(&mut self, ready: bool)
        requires
            old(self).wf(),
            old(self)@.phase is Handshake,
        ensures
            final(self).wf(),
            final(self)@ == answered(old(self)@, ready),
    {
        self.phase = if !ready {
            Phase::Ended(Outcome::Offline)
        } else if self.total_chunks == 0 {
            Phase::Waiting
        } else {
            Phase::Sending
        };
    }

    /// Messages came while the answer to the handshake was waited for. The first one that has
    /// content is the answer; without one the wait goes on.
    pub fn handshake_messages(&mut self, messages: &Vec<Vec<u8>>) -> (got_answer: bool)
        requires
            old(self).wf(),
            old(self)@.phase is Handshake,
        ensures
            final(self).wf(),
            match first_with_content(messages@) {
                Some(i) => {
                    &&& got_answer
                    &&& 0 <= i < messages@.len()
                    &&& final(self)@ == answered(
                        old(self)@,
                        ready_prefix(old(self)@.file_tag).is_prefix_of(
                            utf8_lossy(messages@[i]@),
                        ),
                    )
                },
                None => !got_answer && final(self)@ == old(self)@,
            },
    {
        match find_content(messages) {
            Some(i) => {
                let ready = handshake_accepted(messages[i].as_slice(), self.file_tag.as_str());
                self.handshake_answered(ready);
                true
            },
            None => false,
        }
    }

    /// The chunk that is to be sent, as it travels.
    pub fn chunk_payload(&self, data: &[u8]) -> (payload: Vec<u8>)
        ensures
            payload@ == header_bytes(
                self@.chunk,
                self@.total,
                self@.file_size as nat,
                self@.filename,
                self@.file_tag,
            ) + data@,
    {
        self.payload_of(self.chunk, data)
    }

    /// Any chunk, as it travels.
    pub fn payload_of(&self, chunk_idx: usize, data: &[u8]) -> (payload: Vec<u8>)
        ensures
            payload@ == header_bytes(
                chunk_idx as nat,
                self@.total,
                self@.file_size as nat,
                self@.filename,
                self@.file_tag,
            ) + data@,
    {
        build_chunk_payload(
            chunk_idx,
            self.total_chunks,
            self.file_size,
            self.filename.as_str(),
            self.file_tag.as_str(),
            data,
        )
    }

    /// The chunk was tried once more.
    pub fn chunk_attempted(&mut self, ok: bool) -> (result: AttemptResult)
        requires
            old(self).wf(),
            old(self)@.phase is Sending,
        ensures
            final(self).wf(),
            final(self)@ == attempted(old(self)@, ok),
            result == if ok {
                AttemptResult::Sent { attempts: (old(self)@.attempt + 1) as usize }
            } else if old(self)@.attempt + 1 < MAX_RETRIES {
                AttemptResult::Retry {
                    delay_ms: (RETRY_DELAY_MS * (old(self)@.attempt + 1)) as u64,
                }
            } else {
                AttemptResult::GaveUp
            },
            result is GaveUp <==> !ok && old(self)@.attempt == 9,
            result matches AttemptResult::Retry { delay_ms } ==> delay_ms == 1000 * (old(self)@.attempt
                + 1),
    {
        let attempts: usize = self.attempt + 1;
        if !ok && attempts < MAX_RETRIES {
            self.attempt = attempts;
            return AttemptResult::Retry { delay_ms: RETRY_DELAY_MS * attempts as u64 };
        }
        if !ok {
            self.failed_chunks.push(self.chunk);
        }
        self.chunk = self.chunk + 1;
        self.attempt = 0;
        if self.chunk >= self.total_chunks {
            self.phase = if self.strict && self.failed_chunks.len() > 0 {
                Phase::Ended(Outcome::ChunksFailed(self.failed_chunks.len()))
            } else {
                Phase::Waiting
            };
        }
        if ok {
            AttemptResult::Sent { attempts }
        } else {
            AttemptResult::GaveUp
        }
    }

    /// Messages came while the reply was waited for. The first reply ends the transfer; chunks are
    /// sent again that were asked for before it.
    pub fn reply_messages(&mut self, messages: &Vec<Vec<u8>>) -> (plan: BatchPlan)
        requires
            old(self).wf(),
        ensures
            final(self).wf(),
            match first_reply(messages@) {
                Some(i) => {
                    &&& 0 <= i < messages@.len()
                    &&& plan.reply is Some && plan.reply->0 == i
                    &&& plan.resend@ == requested(messages@.take(i))
                    &&& final(self)@ == ended(
                        old(self)@,
                        verdict(messages@[i]@, old(self)@.sender_hash),
                    )
                },
                None => {
                    &&& plan.reply is None
                    &&& plan.resend@ == requested(messages@)
                    &&& final(self)@ == old(self)@
                },
            },
            plan.reply matches Some(i) ==> (final(self).phase == Phase::Ended(Outcome::Match)
                <==> messages@[i as int]@.len() >= 22 && utf8_lossy(messages@[i as int]@.skip(22))
                == old(self).sender_hash@),
    {
        let plan = plan_batch(messages);
        if let Some(i) = plan.reply {
            self.phase = Phase::Ended(
                judge_reply(messages[i].as_slice(), self.sender_hash.as_str()),
            );
        }
        plan
    }

    /// Whether the reply is still waited for, after so many nanoseconds. If it is not, the transfer is
    /// over.
    pub fn wait_on(&mut self, waited: u64) -> (go_on: bool)
        requires
            old(self).wf(),
            old(self)@.phase is Waiting,
        ensures
            final(self).wf(),
            go_on == (waited < REPLY_TIMEOUT_SECS * crate::receive::NANOS_PER_SEC),
            go_on == (waited < 120_000_000_000),
            final(self)@ == if go_on {
                old(self)@
            } else {
                ended(old(self)@, Outcome::NoReply)
            },
    {
        if waited < REPLY_TIMEOUT_SECS * crate::receive::NANOS_PER_SEC {
            return true;
        }
        self.phase = Phase::Ended(Outcome::NoReply);
        false
    }
}

fn find_content(messages: &Vec<Vec<u8>>) -> (r: Option<usize>)
    ensures
        match first_with_content(messages@) {
            Some(i) => r is Some && r->0 == i && 0 <= i < messages@.len(),
            None => r is None,
        },
{
    let mut i: usize = 0;
    while i < messages.len()
        invariant
            i <= messages@.len(),
            first_with_content(messages@.take(i as int)) is None,
        decreases messages.len() - i,
    {
        assert(messages@.take(i + 1).drop_last() =~= messages@.take(i as int));
        if messages[i].len() > 0 {
            proof {
                lemma_first_with_content_stays(messages@, i + 1);
            }
            return Some(i);
        }
        i = i + 1;
    }
    assert(messages@.take(i as int) =~= messages@);
    None
}

proof fn lemma_first_with_content_stays(messages: Seq<Vec<u8>>, n: int)
    requires
        0 <= n <= messages.len(),
        first_with_content(messages.take(n)) is Some,
    ensures
        first_with_content(messages) == first_with_content(messages.take(n)),
    decreases messages.len() - n,
{
    if n < messages.len() {
        assert(messages.take(n + 1).drop_last() =~= messages.take(n));
        lemma_first_with_content_stays(messages, n + 1);
    } else {
        assert(messages.take(n) =~= messages);
    }
}

proof fn lemma_first_reply_stays(messages: Seq<Vec<u8>>, n: int)
    requires
        0 <= n <= messages.len(),
        first_reply(messages.take(n)) is Some,
    ensures
        first_reply(messages) == first_reply(messages.take(n)),
    decreases messages.len() - n,
{
    if n < messages.len() {
        assert(messages.take(n + 1).drop_last() =~= messages.take(n));
        lemma_first_reply_stays(messages, n + 1);
    } else {
        assert(messages.take(n) =~= messages);
    }
}

/// What is to be done about messages that came while the reply was waited for.
pub fn plan_batch(messages: &Vec<Vec<u8>>) -> (plan: BatchPlan)
    ensures
        match first_reply(messages@) {
            Some(i) => {
                &&& 0 <= i < messages@.len()
                &&& plan.reply is Some && plan.reply->0 == i
                &&& plan.resend@ == requested(messages@.take(i))
            },
            None => plan.reply is None && plan.resend@ == requested(messages@),
        },
{
    let mut resend: Vec<usize> = Vec::new();
    let mut i: usize = 0;
    while i < messages.len()
        invariant
            i <= messages@.len(),
            first_reply(messages@.take(i as int)) is None,
            resend@ == requested(messages@.take(i as int)),
        decreases messages.len() - i,
    {
        assert(messages@.take(i + 1).drop_last() =~= messages@.take(i as int));
        match classify_message(messages[i].as_slice()) {
            Incoming::Reply => {
                proof {
                    lemma_first_reply_stays(messages@, i + 1);
                }
                return BatchPlan { resend, reply: Some(i) };
            },
            Incoming::Resend(index) => {
                resend.push(index);
            },
            _ => {},
        }
        i = i + 1;
    }
    assert(messages@.take(i as int) =~= messages@);
    BatchPlan { resend, reply: None }
}

/// What a digest in a reply says of the transfer.
pub fn judge_hash(reply_hash: &str, sender_hash: &str) -> (outcome: Outcome)
    ensures
        outcome == hash_verdict(reply_hash@, sender_hash@),
        outcome == Outcome::Match <==> reply_hash@ == sender_hash@,
        outcome == Outcome::Mismatch <==> reply_hash@ != sender_hash@,
{
    if same_text(reply_hash, sender_hash) {
        Outcome::Match
    } else {
        Outcome::Mismatch
    }
}

/// What a reply says of the transfer.
pub fn judge_reply(reply: &[u8], sender_hash: &str) -> (outcome: Outcome)
    ensures
        outcome == verdict(reply@, sender_hash@),
        ({
            let hash = reply@.skip(FILE_TAG_LEN as int);
            reply@.len() >= FILE_TAG_LEN && vstd::utf8::valid_utf8(hash) ==> outcome
                == hash_verdict(vstd::utf8::decode_utf8(hash), sender_hash@)
        }),
        outcome == Outcome::Match <==> reply@.len() >= 22 && utf8_lossy(reply@.skip(22))
            == sender_hash@,
        outcome == Outcome::Mismatch <==> reply@.len() >= 22 && utf8_lossy(reply@.skip(22))
            != sender_hash@,
        outcome == Outcome::BadReply <==> reply@.len() < 22,
        reply@.len() >= 22 && vstd::utf8::valid_utf8(reply@.skip(22)) ==> (outcome == Outcome::Match
            <==> vstd::utf8::decode_utf8(reply@.skip(22)) == sender_hash@),
{
    match parse_reply_payload(reply) {
        Ok((_, reply_hash)) => judge_hash(reply_hash.as_str(), sender_hash),
        Err(_) => Outcome::BadReply,
    }
}

/// What is said of a part that was not sent, with the detail of why the handshake could not be.
pub open spec fn failure_text(outcome: Outcome, detail: Seq<char>) -> Seq<char> {
    match outcome {
        Outcome::UnexpectedHash => "File hash does not match expected hash from ripemd-160.txt"@,
        Outcome::HandshakeFailed => "Failed to send handshake: "@ + detail,
        Outcome::Offline => "Recipient appears to be offline"@,
        Outcome::ChunksFailed(n) => decimal(n as nat) + " chunks failed to send"@,
        Outcome::NoReply => "Timeout: No reply received"@,
        Outcome::BadReply => "Failed to parse reply: Reply payload too short"@,
        Outcome::Match => ""@,
        Outcome::Mismatch => "Hash mismatch"@,
    }
}

impl Outcome {
    /// What is said of a part that was not sent, with the detail of why the handshake could not be.
    pub fn message(&self, detail: &str) -> (text: String)
        ensures
            text@ == failure_text(*self, detail@),
    {
        match *self {
            Outcome::UnexpectedHash => owned(
                "File hash does not match expected hash from ripemd-160.txt",
            ),
            Outcome::HandshakeFailed => joined("Failed to send handshake: ", detail),
            Outcome::Offline => owned("Recipient appears to be offline"),
            Outcome::ChunksFailed(n) => joined(&decimal_of(n as u64), " chunks failed to send"),
            Outcome::NoReply => owned("Timeout: No reply received"),
            Outcome::BadReply => owned("Failed to parse reply: Reply payload too short"),
            Outcome::Match => owned(""),
            Outcome::Mismatch => owned("Hash mismatch"),
        }
    }
}

// ---------------------------------------------------------------------------------------------
// What holds of a transfer as a whole
// ---------------------------------------------------------------------------------------------

/// Sends all chunks, where `works` says of every try of every chunk whether it succeeds: the transfer
/// after it, and all tries in order.
pub open spec fn send_all(t: Transfer, works: spec_fn(nat, nat) -> bool) -> (
    Transfer,
    Seq<(nat, nat)>,
)
    decreases t.total - t.chunk, MAX_RETRIES - t.attempt,
{
    if t.phase is Sending && t.chunk < t.total && t.attempt < MAX_RETRIES {
        let (end, tries) = send_all(attempted(t, works(t.chunk, t.attempt)), works);
        (end, seq![(t.chunk, t.attempt)] + tries)
    } else {
        (t, Seq::empty())
    }
}

/// Whether one of the tries of a chunk succeeds, from a given one on.
pub open spec fn succeeds(works: spec_fn(nat, nat) -> bool, chunk: nat, from: nat) -> bool {
    exists|attempt: nat| from <= attempt < MAX_RETRIES && #[trigger] works(chunk, attempt)
}

/// The tries of a chunk from a given one on: up to the first success, or the last one.
pub open spec fn tries_of(works: spec_fn(nat, nat) -> bool, chunk: nat, from: nat) -> Seq<
    (nat, nat),
>
    decreases MAX_RETRIES - from,
{
    if from >= MAX_RETRIES {
        Seq::empty()
    } else if works(chunk, from) {
        seq![(chunk, from)]
    } else {
        seq![(chunk, from)] + tries_of(works, chunk, from + 1)
    }
}

/// The tries of all chunks from a given one on, in order.
pub open spec fn tries_from(works: spec_fn(nat, nat) -> bool, chunk: nat, total: nat) -> Seq<
    (nat, nat),
>
    decreases total - chunk,
{
    if chunk >= total {
        Seq::empty()
    } else {
        tries_of(works, chunk, 0) + tries_from(works, chunk + 1, total)
    }
}

/// The chunks from a given one on none of whose tries succeeds, in order.
pub open spec fn failures_from(works: spec_fn(nat, nat) -> bool, chunk: nat, total: nat) -> Seq<
    usize,
>
    decreases total - chunk,
{
    if chunk >= total {
        Seq::empty()
    } else if succeeds(works, chunk, 0) {
        failures_from(works, chunk + 1, total)
    } else {
        seq![chunk as usize] + failures_from(works, chunk + 1, total)
    }
}

proof fn lemma_send_all(t: Transfer, works: spec_fn(nat, nat) -> bool)
    requires
        on_course(t),
        t.phase is Sending,
    ensures
        ({
            let (end, tries) = send_all(t, works);
            let rest = failures_from(works, t.chunk + 1, t.total);
            &&& end.failed == t.failed + (if succeeds(works, t.chunk, t.attempt) {
                rest
            } else {
                seq![t.chunk as usize] + rest
            })
            &&& tries == tries_of(works, t.chunk, t.attempt) + tries_from(
                works,
                t.chunk + 1,
                t.total,
            )
            &&& end.chunk == t.total
            &&& end.phase == after_chunks(t.strict, end.failed.len())
        }),
    decreases t.total - t.chunk, MAX_RETRIES - t.attempt,
{
    let ok = works(t.chunk, t.attempt);
    let next = attempted(t, ok);
    let (end, tries) = send_all(t, works);
    let (_, later) = send_all(next, works);
    assert(tries == seq![(t.chunk, t.attempt)] + later);
    let rest = failures_from(works, t.chunk + 1, t.total);
    if ok || t.attempt + 1 >= MAX_RETRIES {
        if ok {
            assert(succeeds(works, t.chunk, t.attempt));
        } else {
            assert(!succeeds(works, t.chunk, t.attempt));
            assert(tries_of(works, t.chunk, t.attempt + 1) =~= Seq::empty());
        }
        assert(tries_of(works, t.chunk, t.attempt) =~= seq![(t.chunk, t.attempt)]);
        if t.chunk + 1 < t.total {
            lemma_send_all(next, works);
            let last = failures_from(works, t.chunk + 2, t.total);
            assert(rest == if succeeds(works, t.chunk + 1, 0) {
                last
            } else {
                seq![(t.chunk + 1) as usize] + last
            });
            assert(later == tries_from(works, t.chunk + 1, t.total));
        } else {
            assert(rest =~= Seq::empty());
            assert(later =~= Seq::empty());
            assert(tries_from(works, t.chunk + 1, t.total) =~= Seq::empty());
        }
        assert(end.failed =~= t.failed + (if ok {
            rest
        } else {
            seq![t.chunk as usize] + rest
        }));
    } else {
        lemma_send_all(next, works);
        assert(succeeds(works, t.chunk, t.attempt) == succeeds(works, t.chunk, t.attempt + 1)) by {
            if succeeds(works, t.chunk, t.attempt) {
                let a = choose|a: nat|
                    t.attempt <= a < MAX_RETRIES && #[trigger] works(t.chunk, a);
                assert(a != t.attempt);
                assert(t.attempt + 1 <= a < MAX_RETRIES && works(t.chunk, a));
            }
        }
    }
    assert(tries =~= tries_of(works, t.chunk, t.attempt) + tries_from(works, t.chunk + 1, t.total));
}

/// However the tries go, every chunk is tried, in order, until a try succeeds and ten times at most;
/// the chunks that are recorded as failed are exactly those none of whose tries succeeds; and the
/// transfer goes on to wait for the reply, unless it is strict and a chunk has failed.
pub proof fn law_chunks_are_tried(t: Transfer, works: spec_fn(nat, nat) -> bool)
    requires
        on_course(t),
        t.phase is Handshake,
        t.total > 0,
    ensures
        ({
            let (end, tries) = send_all(answered(t, true), works);
            &&& tries == tries_from(works, 0, t.total)
            &&& end.failed == failures_from(works, 0, t.total)
            &&& end.phase == after_chunks(t.strict, end.failed.len())
        }),
        forall|chunk: nat| (#[trigger] tries_of(works, chunk, 0)).len() <= MAX_RETRIES,
{
    let sending = answered(t, true);
    lemma_send_all(sending, works);
    let (end, tries) = send_all(sending, works);
    assert(end.failed =~= failures_from(works, 0, t.total));
    assert forall|chunk: nat| (#[trigger] tries_of(works, chunk, 0)).len() <= MAX_RETRIES by {
        lemma_tries_bounded(works, chunk, 0);
    }
}

proof fn lemma_tries_bounded(works: spec_fn(nat, nat) -> bool, chunk: nat, from: nat)
    requires
        from <= MAX_RETRIES,
    ensures
        tries_of(works, chunk, from).len() <= MAX_RETRIES - from,
    decreases MAX_RETRIES - from,
{
    if from < MAX_RETRIES {
        lemma_tries_bounded(works, chunk, from + 1);
    }
}

proof fn lemma_no_failures(works: spec_fn(nat, nat) -> bool, chunk: nat, total: nat)
    requires
        forall|i: nat| chunk <= i < total ==> #[trigger] succeeds(works, i, 0),
    ensures
        failures_from(works, chunk, total).len() == 0,
    decreases total - chunk,
{
    if chunk < total {
        assert(succeeds(works, chunk, 0));
        lemma_no_failures(works, chunk + 1, total);
    }
}

/// If of every chunk some try succeeds, none fails and the reply is waited for.
pub proof fn law_no_failure_without_cause(t: Transfer, works: spec_fn(nat, nat) -> bool)
    requires
        on_course(t),
        t.phase is Handshake,
        t.total > 0,
        forall|i: nat| i < t.total ==> #[trigger] succeeds(works, i, 0),
    ensures
        ({
            let (end, tries) = send_all(answered(t, true), works);
            end.failed.len() == 0 && end.phase == Phase::Waiting
        }),
{
    law_chunks_are_tried(t, works);
    lemma_no_failures(works, 0, t.total);
}

/// No chunk is sent before the recipient has answered that it is ready.
pub proof fn law_nothing_is_sent_to_nobody(t: Transfer, works: spec_fn(nat, nat) -> bool)
    requires
        t.phase is Handshake,
    ensures
        send_all(t, works) == (t, Seq::<(nat, nat)>::empty()),
        send_all(answered(t, false), works) == (
            ended(t, Outcome::Offline),
            Seq::<(nat, nat)>::empty(),
        ),
{
}

// ---------------------------------------------------------------------------------------------
// Each step by itself
// ---------------------------------------------------------------------------------------------

/// The recipient has the file exactly if the digest in its reply is that of the sender, of whatever
/// length; with any other one it has another file.
pub proof fn law_only_the_same_digest_matches(reply_hash: Seq<char>, sender_hash: Seq<char>)
    ensures
        hash_verdict(reply_hash, sender_hash) == Outcome::Match <==> reply_hash == sender_hash,
        hash_verdict(reply_hash, sender_hash) == Outcome::Mismatch <==> reply_hash != sender_hash,
{
}

/// A reply is a tag of 22 bytes and a digest. What the tag is does not matter; one that is shorter cannot
/// be read.
pub proof fn law_reply_is_judged_by_its_digest(
    tag: Seq<u8>,
    other_tag: Seq<u8>,
    digest: Seq<u8>,
    sender_hash: Seq<char>,
)
    requires
        tag.len() == 22,
        other_tag.len() == 22,
    ensures
        verdict(tag + digest, sender_hash) == Outcome::Match <==> utf8_lossy(digest) == sender_hash,
        verdict(tag + digest, sender_hash) == Outcome::Mismatch <==> utf8_lossy(digest)
            != sender_hash,
        verdict(tag + digest, sender_hash) == verdict(other_tag + digest, sender_hash),
        forall|short: Seq<u8>|
            short.len() < 22 ==> #[trigger] verdict(short, sender_hash) == Outcome::BadReply,
{
    assert((tag + digest).skip(22) =~= digest);
    assert((other_tag + digest).skip(22) =~= digest);
}

/// The answer to the handshake is the first message that has content: those before it have none.
pub proof fn law_first_message_with_content(messages: Seq<Vec<u8>>)
    ensures
        match first_with_content(messages) {
            Some(i) => {
                &&& 0 <= i < messages.len()
                &&& messages[i]@.len() > 0
                &&& forall|j: int| 0 <= j < i ==> (#[trigger] messages[j])@.len() == 0
            },
            None => forall|j: int| 0 <= j < messages.len() ==> (#[trigger] messages[j])@.len() == 0,
        },
    decreases messages.len(),
{
    if messages.len() > 0 {
        let rest = messages.drop_last();
        law_first_message_with_content(rest);
        assert forall|j: int| 0 <= j < rest.len() implies rest[j] == messages[j] by {}
        if first_with_content(rest) is None {
            assert forall|j: int| 0 <= j < rest.len() implies (#[trigger] messages[j])@.len()
                == 0 by {
                assert(rest[j]@.len() == 0);
            }
        } else {
            let i = first_with_content(rest)->0;
            assert forall|j: int| 0 <= j < i implies (#[trigger] messages[j])@.len() == 0 by {
                assert(rest[j]@.len() == 0);
            }
        }
    }
}

/// The reply is the first message that is one: those before it are not.
pub proof fn law_first_reply(messages: Seq<Vec<u8>>)
    ensures
        match first_reply(messages) {
            Some(i) => {
                &&& 0 <= i < messages.len()
                &&& incoming(messages[i]@) == Incoming::Reply
                &&& forall|j: int|
                    0 <= j < i ==> incoming((#[trigger] messages[j])@) != Incoming::Reply
            },
            None => forall|j: int|
                0 <= j < messages.len() ==> incoming((#[trigger] messages[j])@) != Incoming::Reply,
        },
    decreases messages.len(),
{
    if messages.len() > 0 {
        let rest = messages.drop_last();
        law_first_reply(rest);
        if first_reply(rest) is None {
            assert forall|j: int| 0 <= j < rest.len() implies incoming((#[trigger] messages[j])@)
                != Incoming::Reply by {
                assert(incoming(rest[j]@) != Incoming::Reply);
            }
        } else {
            let i = first_reply(rest)->0;
            assert(rest[i] == messages[i]);
            assert forall|j: int| 0 <= j < i implies incoming((#[trigger] messages[j])@)
                != Incoming::Reply by {
                assert(incoming(rest[j]@) != Incoming::Reply);
            }
        }
    }
}

/// Every chunk that a message asks for is sent again, in the order of the messages, as often as it is
/// asked for.
pub proof fn law_requested_chunks(first: Seq<Vec<u8>>, second: Seq<Vec<u8>>, message: Vec<u8>)
    ensures
        requested(first + second) == requested(first) + requested(second),
        match incoming(message@) {
            Incoming::Resend(index) => requested(seq![message]) == seq![index],
            _ => requested(seq![message]) == Seq::<usize>::empty(),
        },
        requested(Seq::empty()) == Seq::<usize>::empty(),
    decreases second.len(),
{
    reveal_with_fuel(requested, 2);
    assert(seq![message].drop_last() =~= Seq::empty());
    assert(seq![message].last() == message);
    if second.len() > 0 {
        law_requested_chunks(first, second.drop_last(), message);
        assert((first + second).drop_last() =~= first + second.drop_last());
        assert(requested(first + second) =~= requested(first) + requested(second));
    } else {
        assert(first + second =~= first);
        assert(requested(first) + requested(second) =~= requested(first));
    }
}

/// A transfer starts with its handshake, with all chunks before it. A file has a chunk for every 65536
/// bytes and one for the rest.
pub proof fn law_transfer_begins(
    filename: Seq<char>,
    file_size: u64,
    sender_hash: Seq<char>,
    file_tag: Seq<char>,
    strict: bool,
)
    requires
        file_size <= crate::rounding::DOUBLE_RANGE,
    ensures
        ({
            let t = begun(filename, file_size, sender_hash, file_tag, strict);
            &&& t.filename == filename && t.file_size == file_size && t.sender_hash == sender_hash
            &&& t.file_tag == file_tag && t.strict == strict
            &&& t.phase is Handshake && t.chunk == 0 && t.attempt == 0 && t.failed.len() == 0
            &&& t.total < usize::MAX ==> t.total * 65536 >= file_size
            &&& t.total > 0 ==> (t.total - 1) * 65536 < file_size
        }),
{
    crate::send::law_chunks_hold_the_file(file_size as nat);
    let t = begun(filename, file_size, sender_hash, file_tag, strict);
    if t.total > 0 {
        assert(t.total <= chunks_of(file_size as nat));
    }
}

/// A recipient that is not ready ends the transfer, one that is ready lets it go on: with the chunks, or
/// where there are none with the wait for the reply. The transfer itself stays what it is.
pub proof fn law_answer_to_the_handshake(t: Transfer, outcome: Outcome)
    ensures
        answered(t, false).phase == Phase::Ended(Outcome::Offline),
        t.total > 0 ==> answered(t, true).phase is Sending,
        t.total == 0 ==> answered(t, true).phase is Waiting,
        forall|ready: bool| (Transfer { phase: t.phase, ..#[trigger] answered(t, ready) }) == t,
        ended(t, outcome).phase == Phase::Ended(outcome),
        (Transfer { phase: t.phase, ..ended(t, outcome) }) == t,
{
}

/// A chunk that went through is done. One that did not is tried again, until it was tried ten times; then
/// it is listed as failed and is done. When the last one is done the reply is waited for, unless the
/// transfer is strict and a chunk has failed: then it ends, with their number.
pub proof fn law_one_try(t: Transfer, ok: bool)
    requires
        on_course(t),
        t.phase is Sending,
    ensures
        ({
            let a = attempted(t, ok);
            let done = ok || t.attempt == 9;
            &&& !done ==> a.chunk == t.chunk && a.attempt == t.attempt + 1 && a.failed == t.failed
                && a.phase == t.phase
            &&& done ==> a.chunk == t.chunk + 1 && a.attempt == 0
            &&& ok ==> a.failed == t.failed
            &&& done && !ok ==> a.failed.len() == t.failed.len() + 1 && a.failed.last() == t.chunk
                && a.failed.drop_last() == t.failed
            &&& done && t.chunk + 1 < t.total ==> a.phase is Sending
            &&& done && t.chunk + 1 == t.total && (!t.strict || a.failed.len() == 0) ==> a.phase is
                Waiting
            &&& done && t.chunk + 1 == t.total && t.strict && a.failed.len() > 0 ==> a.phase
                == Phase::Ended(Outcome::ChunksFailed(a.failed.len() as usize))
            &&& a.filename == t.filename && a.file_size == t.file_size && a.total == t.total
            &&& a.file_tag == t.file_tag && a.sender_hash == t.sender_hash && a.strict == t.strict
            &&& on_course(a)
        }),
{
    let a = attempted(t, ok);
    if !ok && t.attempt == 9 {
        assert(a.failed.drop_last() =~= t.failed);
    }
}

/// A chunk is tried ten times exactly if the first nine tries fail, and no try follows one that succeeds.
pub proof fn law_tries_of_a_chunk(works: spec_fn(nat, nat) -> bool, chunk: nat, from: nat)
    requires
        from < 10,
    ensures
        ({
            let tries = tries_of(works, chunk, from);
            &&& 0 < tries.len() <= 10 - from
            &&& forall|i: int| 0 <= i < tries.len() ==> #[trigger] tries[i] == (chunk, (from + i) as nat)
            &&& forall|i: int| 0 <= i < tries.len() - 1 ==> !works(chunk, (#[trigger] tries[i]).1)
            &&& tries.len() < 10 - from ==> works(chunk, tries.last().1)
        }),
    decreases 10 - from,
{
    reveal_with_fuel(tries_of, 2);
    let tries = tries_of(works, chunk, from);
    if !works(chunk, from) && from < 9 {
        law_tries_of_a_chunk(works, chunk, from + 1);
        let rest = tries_of(works, chunk, from + 1);
        assert(tries == seq![(chunk, from)] + rest);
        assert forall|i: int| 0 <= i < tries.len() implies #[trigger] tries[i] == (
            chunk,
            (from + i) as nat,
        ) by {
            if i > 0 {
                assert(tries[i] == rest[i - 1]);
            }
        }
        assert forall|i: int| 0 <= i < tries.len() - 1 implies !works(
            chunk,
            (#[trigger] tries[i]).1,
        ) by {
            if i > 0 {
                assert(tries[i] == rest[i - 1]);
            }
        }
        assert(tries.last() == rest.last());
    } else if !works(chunk, from) {
        assert(tries_of(works, chunk, 10) =~= Seq::empty());
        assert(tries =~= seq![(chunk, from)]);
    }
}

/// What a session stands for is what it holds.
pub proof fn law_session_is_seen_whole(session: SendSession)
    ensures
        session@.filename == session.filename@,
        session@.file_size == session.file_size,
        session@.total == session.total_chunks,
        session@.file_tag == session.file_tag@,
        session@.sender_hash == session.sender_hash@,
        session@.strict == session.strict,
        session@.phase == session.phase,
        session@.chunk == session.chunk,
        session@.attempt == session.attempt,
        session@.failed == session.failed_chunks@,
{
}

/// Whatever did not succeed is told by a text of its own, and what the detail says is in it where the
/// handshake could not be sent.
pub proof fn law_failures_are_told_apart(first: Outcome, second: Outcome, detail: Seq<char>)
    requires
        !(first is Match) && !(second is Match),
        !(first is HandshakeFailed) && !(second is HandshakeFailed),
        failure_text(first, detail) == failure_text(second, detail),
    ensures
        first == second,
        "Failed to send handshake: "@.is_prefix_of(failure_text(Outcome::HandshakeFailed, detail)),
        detail.is_suffix_of(failure_text(Outcome::HandshakeFailed, detail)),
{
    reveal_strlit("File hash does not match expected hash from ripemd-160.txt");
    reveal_strlit("Failed to send handshake: ");
    reveal_strlit("Recipient appears to be offline");
    reveal_strlit(" chunks failed to send");
    reveal_strlit("Timeout: No reply received");
    reveal_strlit("Failed to parse reply: Reply payload too short");
    reveal_strlit("Hash mismatch");
    let handshake = failure_text(Outcome::HandshakeFailed, detail);
    let head = "Failed to send handshake: "@;
    assert(handshake.subrange(0, head.len() as int) =~= head);
    assert(handshake.subrange(head.len() as int, handshake.len() as int) =~= detail);
    if first is ChunksFailed {
        lemma_starts_with_digit(first, detail);
    }
    if second is ChunksFailed {
        lemma_starts_with_digit(second, detail);
    }
    assert(failure_text(first, detail)[0] == failure_text(second, detail)[0]);
    assert(failure_text(first, detail)[1] == failure_text(second, detail)[1]);
    assert("File hash does not match expected hash from ripemd-160.txt"@[1] == 'i');
    assert("Failed to parse reply: Reply payload too short"@[1] == 'a');
    if first is ChunksFailed && second is ChunksFailed {
        let (m, n) = (first->ChunksFailed_0 as nat, second->ChunksFailed_0 as nat);
        let tail = " chunks failed to send"@;
        let (a, b) = (decimal(m), decimal(n));
        assert((a + tail).len() == (b + tail).len());
        assert forall|i: int| 0 <= i < a.len() implies a[i] == b[i] by {
            assert((a + tail)[i] == (b + tail)[i]);
        }
        assert(a =~= b);
        crate::text_laws::law_numerals_differ(m, n);
    }
}

proof fn lemma_starts_with_digit(outcome: Outcome, detail: Seq<char>)
    requires
        outcome is ChunksFailed,
    ensures
        '0' <= failure_text(outcome, detail)[0] <= '9',
{
    let n = outcome->ChunksFailed_0 as nat;
    crate::text_laws::lemma_decimal(n);
    assert(crate::text::is_digit(decimal(n)[0]));
}

} // verus!
