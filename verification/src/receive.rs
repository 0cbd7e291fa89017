//! The receiving end of a transfer: chunks that arrive in any order become a file.
//!
//! The state says what is to be done next; files are written and messages sent elsewhere, and the
//! outcome is reported back. Times are nanoseconds since some fixed moment.
use std::collections::HashMap;
use vstd::prelude::*;
use crate::digest::FileHasher;
use crate::protocol::{
    serialize_resend_request, serialize_transfer_complete, FileChunk, FileInfo, ResendRequest,
    TransferComplete,
};
use crate::rounding::percent_of;
use crate::text::{optional_owned, optional_text, owned};

verus! {

broadcast use vstd::std_specs::hash::group_hash_axioms;

/// So long, in seconds, nothing may arrive before missing chunks are asked for.
pub const RESEND_TIMEOUT_SECS: u64 = 60;

/// So often missing chunks are asked for.
pub const MAX_RESEND_ROUNDS: u32 = 10;

/// Nanoseconds in a second.
pub const NANOS_PER_SEC: u64 = 1_000_000_000;

/// The senders from whom files are taken.
pub struct Whitelist {
    pub allowed_senders: Vec<String>,
}

/// The content of a chunk.
pub struct ReceivedChunk {
    pub data: Vec<u8>,
    pub is_last: bool,
}

/// What the receiver knows of the file that one sender is sending.
pub struct ReceiveState {
    /// Whether a file is open for the chunks.
    pub file_open: bool,
    pub current_file_name: String,
    pub current_file_size: u64,
    pub total_chunks: u32,
    /// The index of the chunk that is to be written next.
    pub next_expected_index: u32,
    pub chunks_written: u32,
    /// Chunks that arrived and are not written.
    pub received_chunks: HashMap<u32, ReceivedChunk>,
    /// The percentage that was reported last, or -1.
    pub last_progress: i32,
    /// When something last arrived or was asked for.
    pub last_activity: u64,
    pub sender_address: Option<String>,
    pub resend_rounds: u32,
    /// Processes all that is handed out for writing.
    pub hasher: FileHasher,
    /// What the sender is called in reports.
    pub sender_id: String,
}

/// The content of a chunk, as a value.
pub struct Piece {
    pub data: Seq<u8>,
    pub is_last: bool,
}

/// What a receive state stands for.
pub struct Reception {
    pub open: bool,
    pub name: Seq<char>,
    pub size: u64,
    pub total: u32,
    pub next: u32,
    pub written: u32,
    pub pending: Map<u32, Piece>,
    pub progress: int,
    pub last_activity: u64,
    pub sender_address: Option<Seq<char>>,
    pub rounds: u32,
    pub hashed: Seq<u8>,
    pub sender_id: Seq<char>,
}

impl View for ReceivedChunk {
    type V = Piece;

    open spec fn view(&self) -> Piece {
        Piece { data: self.data@, is_last: self.is_last }
    }
}

impl View for ReceiveState {
    type V = Reception;

    open spec fn view(&self) -> Reception {
        Reception {
            open: self.file_open,
            name: self.current_file_name@,
            size: self.current_file_size,
            total: self.total_chunks,
            next: self.next_expected_index,
            written: self.chunks_written,
            pending: self.received_chunks@.map_values(|chunk: ReceivedChunk| chunk@),
            progress: self.last_progress as int,
            last_activity: self.last_activity,
            sender_address: optional_text(self.sender_address),
            rounds: self.resend_rounds,
            hashed: self.hasher@,
            sender_id: self.sender_id@,
        }
    }
}

// ---------------------------------------------------------------------------------------------
// The steps of a reception
// ---------------------------------------------------------------------------------------------

/// What holds of every reception: chunks are written in order from the first, and the file is open
/// only while some are to come.
pub open spec fn consistent(m: Reception) -> bool {
    &&& m.next == m.written
    &&& m.open ==> m.total == 0 || m.written < m.total
    &&& m.rounds <= MAX_RESEND_ROUNDS
}

/// Nothing is known of any file.
pub open spec fn idle(sender_id: Seq<char>, now: u64) -> Reception {
    Reception {
        open: false,
        name: Seq::empty(),
        size: 0,
        total: 0,
        next: 0,
        written: 0,
        pending: Map::empty(),
        progress: -1,
        last_activity: now,
        sender_address: None,
        rounds: 0,
        hashed: Seq::empty(),
        sender_id,
    }
}

/// A file is announced: all that was known of another is gone.
pub open spec fn announced(
    m: Reception,
    name: Seq<char>,
    size: u64,
    chunks: u32,
    sender_address: Seq<char>,
    now: u64,
) -> Reception {
    Reception {
        name,
        size,
        total: chunks,
        sender_address: Some(sender_address),
        ..idle(m.sender_id, now)
    }
}

/// The file for the chunks is there.
pub open spec fn opened(m: Reception) -> Reception {
    Reception { open: true, ..m }
}

/// A chunk arrives.
pub open spec fn stored(m: Reception, index: u32, piece: Piece, now: u64) -> Reception {
    Reception { pending: m.pending.insert(index, piece), last_activity: now, ..m }
}

/// Whether the chunk that is to be written next is there.
pub open spec fn ready(m: Reception) -> bool {
    m.open && m.pending.contains_key(m.next)
}

/// Whether the chunk that is to be written next, if it is there, can still be hashed.
pub open spec fn room(m: Reception) -> bool {
    ready(m) ==> m.hashed.len() + m.pending[m.next].data.len() < crate::digest::HASH_LIMIT
}

/// The next chunk is handed out for writing, and is hashed.
pub open spec fn taken(m: Reception) -> Reception {
    Reception {
        pending: m.pending.remove(m.next),
        hashed: m.hashed + m.pending[m.next].data,
        ..m
    }
}

/// The percentage after one more chunk.
pub open spec fn next_progress(m: Reception) -> int {
    if m.total > 0 {
        crate::rounding::percent((m.written + 1) as nat, m.total as nat) as int
    } else {
        0
    }
}

/// Whether the file ends with one more chunk: it is marked as the last, or is the last by number.
pub open spec fn ends(m: Reception, is_last: bool) -> bool {
    is_last || m.written + 1 == m.total
}

/// A chunk was written.
pub open spec fn wrote(m: Reception, is_last: bool) -> Reception {
    Reception {
        open: !ends(m, is_last),
        next: (m.next + 1) as u32,
        written: (m.written + 1) as u32,
        pending: if ends(m, is_last) {
            Map::empty()
        } else {
            m.pending
        },
        progress: next_progress(m),
        ..m
    }
}

/// Whether the file is written whole and closed.
pub open spec fn complete(m: Reception) -> bool {
    !m.open && m.written == m.total && m.total > 0
}

/// Whether chunks are missing and nothing has happened for long enough.
pub open spec fn resend_due(m: Reception, now: u64) -> bool {
    &&& m.open
    &&& m.written < m.total
    &&& now - m.last_activity >= RESEND_TIMEOUT_SECS * NANOS_PER_SEC
}

/// The indices from `from` to before `to` at which no chunk is pending, in ascending order.
pub open spec fn missing_between(pending: Map<u32, Piece>, from: int, to: int) -> Seq<u32>
    decreases to - from,
{
    if to <= from {
        Seq::empty()
    } else {
        let before = missing_between(pending, from, to - 1);
        if pending.contains_key((to - 1) as u32) {
            before
        } else {
            before.push((to - 1) as u32)
        }
    }
}

/// The indices of the chunks that have not arrived, in ascending order.
pub open spec fn missing(m: Reception) -> Seq<u32> {
    missing_between(m.pending, m.next as int, m.total as int)
}

/// The reception is given up.
pub open spec fn given_up(m: Reception) -> Reception {
    Reception { open: false, pending: Map::empty(), ..m }
}

/// Missing chunks are asked for once more.
pub open spec fn asked_again(m: Reception) -> Reception {
    Reception { rounds: (m.rounds + 1) as u32, ..m }
}

/// Something happened just now.
pub open spec fn active(m: Reception, now: u64) -> Reception {
    Reception { last_activity: now, ..m }
}

impl ReceiveState {
    /// The state stands for a consistent reception.
    pub open spec fn wf(self) -> bool {
        self.hasher.wf() && consistent(self@)
    }

    /// The state of a sender of whom nothing came yet.
    pub fn new(sender_id: String, now: u64) -> (state: ReceiveState)
        ensures
            state.wf(),
            state@ == idle(sender_id@, now),
    {
        let state = ReceiveState {
            file_open: false,
            current_file_name: String::new(),
            current_file_size: 0,
            total_chunks: 0,
            next_expected_index: 0,
            chunks_written: 0,
            received_chunks: HashMap::new(),
            last_progress: -1,
            last_activity: now,
            sender_address: None,
            resend_rounds: 0,
            hasher: FileHasher::new(),
            sender_id,
        };
        assert(state@.pending =~= Map::empty());
        assert(state@.name =~= Seq::empty());
        state
    }

    /// Whether the file is written whole and closed.
    pub fn is_complete(&self) -> (r: bool)
        ensures
            r == complete(self@),
    {
        !self.file_open && self.chunks_written == self.total_chunks && self.total_chunks > 0
    }
}

/// A file is announced. The result says whether a file is to be created for it, under the name in
/// the state; without a name there is none.
pub fn handle_file_info(info: &FileInfo, now: u64, state: &mut ReceiveState) -> (create: bool)
    requires
        old(state).wf(),
    ensures
        final(state).wf(),
        final(state)@ == announced(
            old(state)@,
            info.name@,
            info.size,
            info.chunks,
            info.sender_address@,
            now,
        ),
        create == (info.name@.len() > 0),
{
    let sender_id = owned(state.sender_id.as_str());
    *state = ReceiveState::new(sender_id, now);
    state.current_file_name = owned(info.name.as_str());
    state.current_file_size = info.size;
    state.total_chunks = info.chunks;
    state.sender_address = Some(owned(info.sender_address.as_str()));
    !info.name.as_str().is_empty()
}

/// The announced file was created.
pub fn file_created(state: &mut ReceiveState)
    requires
        old(state).wf(),
        old(state)@.total == 0 || old(state)@.written < old(state)@.total,
    ensures
        final(state).wf(),
        final(state)@ == opened(old(state)@),
{
    state.file_open = true;
}

/// A chunk arrives. Without an open file it is dropped.
pub fn handle_file_chunk(chunk: FileChunk, now: u64, state: &mut ReceiveState)
    requires
        old(state).wf(),
    ensures
        final(state).wf(),
        final(state)@ == if old(state)@.open {
            stored(
                old(state)@,
                chunk.index,
                Piece { data: chunk.data@, is_last: chunk.is_last },
                now,
            )
        } else {
            old(state)@
        },
{
    if !state.file_open {
        return;
    }
    let ghost piece = Piece { data: chunk.data@, is_last: chunk.is_last };
    state.last_activity = now;
    state.received_chunks.insert(
        chunk.index,
        ReceivedChunk { data: chunk.data, is_last: chunk.is_last },
    );
    assert(state@.pending =~= old(state)@.pending.insert(chunk.index, piece));
}

/// Whether the chunk that is to be written next, if it is there, can still be hashed.
pub fn next_chunk_fits(state: &ReceiveState) -> (r: bool)
    requires
        state.wf(),
    ensures
        r == room(state@),
{
    if !state.file_open {
        return true;
    }
    match state.received_chunks.get(&state.next_expected_index) {
        Some(chunk) => {
            assert(chunk@ == state@.pending[state.next_expected_index]);
            state.hasher.has_room(chunk.data.len())
        },
        None => true,
    }
}

/// Hands out the chunk that is to be written next, if it has arrived.
pub fn take_next_chunk(state: &mut ReceiveState) -> (chunk: Option<ReceivedChunk>)
    requires
        old(state).wf(),
        room(old(state)@),
    ensures
        final(state).wf(),
        chunk is Some <==> ready(old(state)@),
        chunk matches Some(c) ==> c@ == old(state)@.pending[old(state)@.next] && final(state)@
            == taken(old(state)@),
        chunk is None ==> final(state)@ == old(state)@,
{
    if !state.file_open {
        return None;
    }
    let index: u32 = state.next_expected_index;
    match state.received_chunks.remove(&index) {
        Some(chunk) => {
            proof {
                assert(old(state)@.pending[index] == chunk@);
                assert(state@.pending =~= old(state)@.pending.remove(index));
            }
            state.hasher.update(chunk.data.as_slice());
            Some(chunk)
        },
        None => {
            assert(state@.pending =~= old(state)@.pending);
            None
        },
    }
}

/// What came of a chunk that was written.
pub struct WriteReport {
    /// The percentage of the file that is written, if it is another than before.
    pub progress: Option<i32>,
    /// Whether the file was closed.
    pub ended: bool,
    /// Whether it was closed with all its chunks.
    pub whole: bool,
}

/// The chunk that was handed out last has been written. (One that could not be written is not counted, and
/// the same index is still expected; its bytes were hashed when it was handed out, and stay so.)
pub fn chunk_written(is_last: bool, state: &mut ReceiveState) -> (report: WriteReport)
    requires
        old(state).wf(),
        old(state)@.open,
        old(state)@.written < u32::MAX,
    ensures
        final(state).wf(),
        final(state)@ == wrote(old(state)@, is_last),
        report.progress == if next_progress(old(state)@) == old(state)@.progress {
            None::<i32>
        } else {
            Some(next_progress(old(state)@) as i32)
        },
        report.ended == ends(old(state)@, is_last),
        report.whole == (old(state)@.written + 1 == old(state)@.total),
{
    state.chunks_written = state.chunks_written + 1;
    state.next_expected_index = state.next_expected_index + 1;
    let progress: i32 = if state.total_chunks > 0 {
        percent_of(state.chunks_written, state.total_chunks)
    } else {
        0
    };
    let changed = progress != state.last_progress;
    state.last_progress = progress;
    let whole = state.chunks_written == state.total_chunks;
    let ended = is_last || whole;
    if ended {
        state.file_open = false;
        state.received_chunks.clear();
        assert(state@.pending =~= Map::empty());
    } else {
        assert(state@.pending =~= old(state)@.pending);
    }
    WriteReport {
        progress: if changed {
            Some(progress)
        } else {
            None
        },
        ended,
        whole,
    }
}

/// What is to be done about chunks that may be missing.
pub enum ResendStep {
    /// Nothing for now.
    Nothing,
    /// The file was closed: it was asked for too often.
    GaveUp,
    /// The request is to be sent.
    Request(ResendTask),
}

/// A request for missing chunks that is to be sent.
pub struct ResendTask {
    pub request: ResendRequest,
    /// The bytes of the request.
    pub payload: Vec<u8>,
    /// Where it goes, if that is known.
    pub sender_address: Option<String>,
    /// How often it was asked, this time counted.
    pub round: u32,
}

/// Decides whether missing chunks are to be asked for.
pub fn check_and_request_resend(now: u64, state: &mut ReceiveState) -> (step: ResendStep)
    requires
        old(state).wf(),
    ensures
        final(state).wf(),
        match step {
            ResendStep::Nothing => {
                &&& !resend_due(old(state)@, now) || (old(state)@.rounds < MAX_RESEND_ROUNDS
                    && missing(old(state)@).len() == 0)
                &&& final(state)@ == old(state)@
            },
            ResendStep::GaveUp => {
                &&& resend_due(old(state)@, now)
                &&& old(state)@.rounds == MAX_RESEND_ROUNDS
                &&& final(state)@ == given_up(old(state)@)
            },
            ResendStep::Request(task) => {
                &&& resend_due(old(state)@, now)
                &&& old(state)@.rounds < MAX_RESEND_ROUNDS
                &&& missing(old(state)@).len() > 0
                &&& final(state)@ == asked_again(old(state)@)
                &&& task.request.file_name@ == old(state)@.name
                &&& task.request.missing_indices@ == missing(old(state)@)
                &&& task.payload@ == crate::protocol::encode(task.request@)
                &&& optional_text(task.sender_address) == old(state)@.sender_address
                &&& task.round == old(state)@.rounds + 1
            },
        },
        step is Request <==> {
            let m = old(state)@;
            &&& m.open && m.written < m.total && now >= m.last_activity + 60_000_000_000
            &&& m.rounds < 10
            &&& exists|i: u32| m.next <= i < m.total && !#[trigger] m.pending.contains_key(i)
        },
        step is GaveUp <==> {
            let m = old(state)@;
            &&& m.open && m.written < m.total && now >= m.last_activity + 60_000_000_000
            &&& m.rounds == 10
        },
        step matches ResendStep::Request(task) ==> {
            let m = old(state)@;
            let asked = task.request.missing_indices@;
            &&& forall|i: u32| #[trigger]
                asked.contains(i) <==> m.next <= i < m.total && !m.pending.contains_key(i)
            &&& forall|j: int, k: int| 0 <= j < k < asked.len() ==> asked[j] < asked[k]
        },
{
    proof {
        crate::receive_laws::law_missing_chunks(state@);
        crate::receive_laws::law_silence(state@, now);
    }
    if !state.file_open || state.chunks_written >= state.total_chunks {
        return ResendStep::Nothing;
    }
    if now < state.last_activity || now - state.last_activity < RESEND_TIMEOUT_SECS
        * NANOS_PER_SEC {
        return ResendStep::Nothing;
    }
    if state.resend_rounds >= MAX_RESEND_ROUNDS {
        state.file_open = false;
        state.received_chunks.clear();
        assert(state@.pending =~= Map::empty());
        return ResendStep::GaveUp;
    }
    let mut missing_indices: Vec<u32> = Vec::new();
    let mut i: u32 = state.next_expected_index;
    while i < state.total_chunks
        invariant
            state.next_expected_index <= i <= state.total_chunks,
            missing_indices@ == missing_between(
                state@.pending,
                state.next_expected_index as int,
                i as int,
            ),
        decreases state.total_chunks - i,
    {
        if !state.received_chunks.contains_key(&i) {
            missing_indices.push(i);
        }
        i = i + 1;
    }
    if missing_indices.len() == 0 {
        return ResendStep::Nothing;
    }
    state.resend_rounds = state.resend_rounds + 1;
    assert(state@.pending =~= old(state)@.pending);
    let request = ResendRequest {
        file_name: owned(state.current_file_name.as_str()),
        missing_indices,
    };
    let payload = serialize_resend_request(&request);
    ResendStep::Request(
        ResendTask {
            request,
            payload,
            sender_address: optional_owned(&state.sender_address),
            round: state.resend_rounds,
        },
    )
}

/// A request for missing chunks was sent, or could not be.
pub fn resend_attempted(now: u64, state: &mut ReceiveState)
    requires
        old(state).wf(),
    ensures
        final(state).wf(),
        final(state)@ == active(old(state)@, now),
{
    state.last_activity = now;
}

/// The notice that a file has arrived whole.
pub struct CompletionNotice {
    /// Where it goes.
    pub sender_address: String,
    /// The bytes of the notice.
    pub payload: Vec<u8>,
    /// The digest of the file in hexadecimal.
    pub hash: String,
}

/// The notice for the sender that its file has arrived: it names the file and the digest of all the bytes
/// that were hashed, those of the chunks that were handed out to be written. Without an address there is
/// none.
pub fn send_transfer_complete(state: &ReceiveState) -> (notice: Option<CompletionNotice>)
    requires
        state.wf(),
    ensures
        match notice {
            Some(n) => {
                &&& state@.sender_address == Some(n.sender_address@)
                &&& n.payload@ == crate::protocol::encode(
                    crate::protocol::Message::TransferComplete {
                        file_name: state@.name,
                        ripemd160_hash: crate::digest::ripemd160(state@.hashed),
                    },
                )
                &&& n.hash@ == crate::text::hex_text(crate::digest::ripemd160(state@.hashed))
                &&& crate::protocol_laws::text_fits(state@.name) ==> crate::protocol::decode(
                    n.payload@,
                ) == Ok::<crate::protocol::Message, crate::protocol::ProtocolError>(
                    crate::protocol::Message::TransferComplete {
                        file_name: state@.name,
                        ripemd160_hash: crate::digest::ripemd160(state@.hashed),
                    },
                )
            },
            None => state@.sender_address is None,
        },
{
    match &state.sender_address {
        Some(address) => {
            let hash = state.hasher.digest();
            let notice = TransferComplete {
                file_name: owned(state.current_file_name.as_str()),
                ripemd160_hash: hash,
            };
            proof {
                if crate::protocol_laws::text_fits(state@.name) {
                    crate::protocol_laws::law_round_trip(notice@, Seq::empty());
                    assert(crate::protocol::encode(notice@) + Seq::<u8>::empty()
                        =~= crate::protocol::encode(notice@));
                }
            }
            Some(
                CompletionNotice {
                    sender_address: owned(address.as_str()),
                    payload: serialize_transfer_complete(&notice),
                    hash: crate::protocol::hash_to_hex(&hash),
                },
            )
        },
        None => None,
    }
}

} // verus!
