//! The receiver: who may send, and which message belongs to which reception.
use vstd::prelude::*;
use crate::protocol::{
    deserialize_message, serialize_transfer_accept, BinaryMessage, FileChunk, FileInfo, Message,
    TransferAccept, TransferOffer,
};
use crate::receive::{
    announced, check_and_request_resend, chunk_written, complete, file_created, handle_file_chunk,
    handle_file_info, idle, opened, ready, resend_attempted, room,
    send_transfer_complete, stored, taken, take_next_chunk, wrote, CompletionNotice, Piece,
    ReceiveState, ReceivedChunk, Reception, ResendStep, WriteReport,
};
use crate::string_map::StringMap;
use crate::text::{contains_text, decimal, decimal_of, joined, owned, texts};
use crate::utils::{as_signed, format_bytes, signed, size_text};

verus! {

/// The bytes in a MiB.
pub const MIB: u64 = 1024 * 1024;

/// Takes files from any number of senders at a time.
pub struct Receiver {
    /// The addresses that may send, if not all may.
    pub whitelist: Option<Vec<String>>,
    /// The largest file that is taken, in MiB, if there is a limit.
    pub quota_mib: Option<u64>,
    /// The reception of each sender, by the tag that its messages carry.
    pub states: StringMap<ReceiveState>,
    /// How many files were announced.
    pub sender_counter: i32,
}

/// What a receiver stands for.
pub struct Desk {
    pub whitelist: Option<Seq<Seq<char>>>,
    pub quota_mib: Option<u64>,
    pub receptions: Map<Seq<char>, Reception>,
    pub announcements: int,
}

impl View for Receiver {
    type V = Desk;

    open spec fn view(&self) -> Desk {
        Desk {
            whitelist: match self.whitelist {
                Some(list) => Some(texts(list@)),
                None => None,
            },
            quota_mib: self.quota_mib,
            receptions: self.states@.map_values(|state: ReceiveState| state@),
            announcements: self.sender_counter as int,
        }
    }
}

/// Whether the whitelist lets an address send.
pub open spec fn listed(desk: Desk, sender_address: Seq<char>) -> bool {
    match desk.whitelist {
        Some(list) => list.contains(sender_address),
        None => true,
    }
}

/// Whether the quota lets a file of this size come.
pub open spec fn within_quota(desk: Desk, size: u64) -> bool {
    match desk.quota_mib {
        Some(mib) => size <= mib * MIB,
        None => true,
    }
}

/// Whether an offer is accepted.
pub open spec fn admits(desk: Desk, sender_address: Seq<char>, size: u64) -> bool {
    listed(desk, sender_address) && within_quota(desk, size)
}

/// Why an offer is refused.
pub open spec fn denial(desk: Desk, sender_address: Seq<char>, size: u64) -> Seq<char> {
    let mib = decimal(desk.quota_mib->0 as nat);
    if listed(desk, sender_address) {
        "exceeds quota of "@ + mib + " MiB (offered: "@ + size_text(signed(size)) + ")"@
    } else if within_quota(desk, size) {
        "not in whitelist"@
    } else {
        "not in whitelist AND exceeds quota (max "@ + mib + " MiB)"@
    }
}

/// The receiver with another reception for a tag.
pub open spec fn with_reception(desk: Desk, tag: Seq<char>, m: Reception) -> Desk {
    Desk { receptions: desk.receptions.insert(tag, m), ..desk }
}

/// The reception of a tag when a file is announced under it.
pub open spec fn reception_for(desk: Desk, tag: Seq<char>, now: u64) -> Reception {
    if desk.receptions.contains_key(tag) {
        desk.receptions[tag]
    } else {
        idle("S"@ + decimal((desk.announcements + 1) as nat), now)
    }
}

/// The receiver without the receptions whose file is not open.
pub open spec fn pruned(desk: Desk) -> Desk {
    Desk {
        receptions: desk.receptions.restrict(
            Set::new(|tag: Seq<char>| desk.receptions.contains_key(tag) && desk.receptions[tag].open),
        ),
        ..desk
    }
}

/// The answer to an offer.
pub struct OfferAnswer {
    pub offer: TransferOffer,
    pub accepted: bool,
    /// Why the offer is refused, if it is.
    pub reason: Option<String>,
    /// The bytes of the answer.
    pub payload: Vec<u8>,
}

/// What is to be done about a message.
pub enum ReceiverAction {
    /// Nothing.
    Ignore,
    /// The answer is to be sent to the address in the offer.
    Answer(OfferAnswer),
    /// A file was announced. If it has a name, it is to be created.
    Announced { create: bool },
    /// A chunk has come: what can be written is to be written.
    Chunk,
    /// A chunk has come under a tag of which nothing is known.
    UnknownSender,
}

/// What an answer to an offer has to say.
pub open spec fn answers(answer: OfferAnswer, desk: Desk, offer: Message) -> bool {
    match offer {
        Message::TransferOffer { file_name, size, sender_address } => {
            &&& answer.offer@ == offer
            &&& answer.accepted == admits(desk, sender_address, size)
            &&& answer.payload@ == crate::protocol::encode(
                Message::TransferAccept {
                    file_name,
                    accepted: admits(desk, sender_address, size),
                },
            )
            &&& match answer.reason {
                Some(reason) => !answer.accepted && reason@ == denial(desk, sender_address, size),
                None => answer.accepted,
            }
        },
        _ => false,
    }
}

impl Receiver {
    /// Every reception is well-formed, and the quota in bytes is a number of 64 bits.
    pub open spec fn wf(self) -> bool {
        &&& self.states.wf()
        &&& forall|tag: Seq<char>| #[trigger]
            self.states@.contains_key(tag) ==> self.states@[tag].wf()
        &&& self.quota_mib matches Some(mib) ==> mib * MIB <= u64::MAX
        &&& 0 <= self.sender_counter
    }

    /// A receiver to whom nothing came yet.
    pub fn new(whitelist: Option<Vec<String>>, quota_mib: Option<u64>) -> (receiver: Receiver)
        requires
            quota_mib matches Some(mib) ==> mib * MIB <= u64::MAX,
        ensures
            receiver.wf(),
            receiver.whitelist == whitelist,
            receiver.quota_mib == quota_mib,
            receiver@.receptions == Map::<Seq<char>, Reception>::empty(),
            receiver@.announcements == 0,
    {
        let receiver = Receiver { whitelist, quota_mib, states: StringMap::new(), sender_counter: 0 };
        assert(receiver@.receptions =~= Map::empty());
        receiver
    }

    /// Judges an offer.
    pub fn judge_offer(&self, offer: TransferOffer) -> (answer: OfferAnswer)
        requires
            self.wf(),
        ensures
            answers(answer, self@, offer@),
            answer.accepted <==> {
                &&& match self.whitelist {
                    Some(list) => exists|i: int|
                        0 <= i < list@.len() && (#[trigger] list@[i])@ == offer.sender_address@,
                    None => true,
                }
                &&& match self.quota_mib {
                    Some(mib) => offer.size <= mib * 1_048_576,
                    None => true,
                }
            },
            answer.reason is None <==> answer.accepted,
            answer.offer@ == offer@,
    {
        proof {
            if self.whitelist is Some {
                crate::text_laws::law_text_in_a_list(
                    self.whitelist->0@,
                    offer.sender_address@,
                );
            }
        }
        let listed = match &self.whitelist {
            Some(list) => contains_text(list, offer.sender_address.as_str()),
            None => true,
        };
        let within = match self.quota_mib {
            Some(mib) => offer.size <= mib * MIB,
            None => true,
        };
        let accepted = listed && within;
        let mib: u64 = match self.quota_mib {
            Some(mib) => mib,
            None => 0,
        };
        let reason: Option<String> = if accepted {
            None
        } else if listed {
            let mut text = joined("exceeds quota of ", &decimal_of(mib));
            text.push_str(" MiB (offered: ");
            text.push_str(&format_bytes(as_signed(offer.size)));
            text.push_str(")");
            Some(text)
        } else if within {
            Some(owned("not in whitelist"))
        } else {
            let mut text = joined("not in whitelist AND exceeds quota (max ", &decimal_of(mib));
            text.push_str(" MiB)");
            Some(text)
        };
        let answer = TransferAccept { file_name: owned(offer.file_name.as_str()), accepted };
        let payload = serialize_transfer_accept(&answer);
        OfferAnswer { offer, accepted, reason, payload }
    }

    fn put(&mut self, tag: &str, state: ReceiveState)
        requires
            old(self).wf(),
            state.wf(),
        ensures
            final(self).wf(),
            final(self)@ == with_reception(old(self)@, tag@, state@),
    {
        self.states.insert(owned(tag), state);
        assert(self@.receptions =~= old(self)@.receptions.insert(tag@, state@));
    }

    fn take(&mut self, tag: &str) -> (state: ReceiveState)
        requires
            old(self).wf(),
            old(self)@.receptions.contains_key(tag@),
        ensures
            final(self).wf(),
            state.wf(),
            state@ == old(self)@.receptions[tag@],
            final(self)@ == (Desk { receptions: old(self)@.receptions.remove(tag@), ..old(self)@ }),
    {
        let state = self.states.remove(tag);
        proof {
            assert(self@.receptions =~= old(self)@.receptions.remove(tag@));
        }
        match state {
            Some(state) => state,
            None => ReceiveState::new(String::new(), 0),
        }
    }

    /// A message has come under a tag. What cannot be read, and what is meant for a sender, is
    /// ignored.
    pub fn handle_message(&mut self, tag: &str, raw: &[u8], now: u64) -> (action: ReceiverAction)
        requires
            old(self).wf(),
            crate::protocol::decode(raw@) is Ok && crate::protocol::decode(raw@)->Ok_0 is FileInfo
                ==> old(self)@.announcements < i32::MAX,
        ensures
            final(self).wf(),
            match crate::protocol::decode(raw@) {
                Ok(Message::FileInfo { name, size, chunks, sender_address }) => {
                    &&& action == (ReceiverAction::Announced { create: name.len() > 0 })
                    &&& final(self)@ == (Desk {
                        announcements: old(self)@.announcements + 1,
                        ..with_reception(
                            old(self)@,
                            tag@,
                            announced(
                                reception_for(old(self)@, tag@, now),
                                name,
                                size,
                                chunks,
                                sender_address,
                                now,
                            ),
                        )
                    })
                },
                Ok(Message::FileChunk { index, total, data, is_last }) => {
                    if old(self)@.receptions.contains_key(tag@) {
                        let m = old(self)@.receptions[tag@];
                        &&& action is Chunk
                        &&& final(self)@ == with_reception(
                            old(self)@,
                            tag@,
                            if m.open {
                                stored(m, index, (Piece { data, is_last }), now)
                            } else {
                                m
                            },
                        )
                    } else {
                        action is UnknownSender && final(self)@ == old(self)@
                    }
                },
                Ok(Message::TransferOffer { file_name, size, sender_address }) => {
                    &&& action is Answer
                    &&& answers(
                        action->Answer_0,
                        old(self)@,
                        Message::TransferOffer { file_name, size, sender_address },
                    )
                    &&& final(self)@ == old(self)@
                },
                _ => action is Ignore && final(self)@ == old(self)@,
            },
            action matches ReceiverAction::Answer(answer) ==> (answer.accepted <==> {
                &&& match old(self).whitelist {
                    Some(list) => exists|i: int|
                        0 <= i < list@.len() && (#[trigger] list@[i])@
                            == answer.offer.sender_address@,
                    None => true,
                }
                &&& match old(self).quota_mib {
                    Some(mib) => answer.offer.size <= mib * 1_048_576,
                    None => true,
                }
            }),
    {
        match deserialize_message(raw) {
            Ok(BinaryMessage::TransferOffer(offer)) => ReceiverAction::Answer(
                self.judge_offer(offer),
            ),
            Ok(BinaryMessage::FileInfo(info)) => self.announce(tag, &info, now),
            Ok(BinaryMessage::FileChunk(chunk)) => self.accept_chunk(tag, chunk, now),
            _ => ReceiverAction::Ignore,
        }
    }

    fn announce(&mut self, tag: &str, info: &FileInfo, now: u64) -> (action: ReceiverAction)
        requires
            old(self).wf(),
            old(self)@.announcements < i32::MAX,
        ensures
            final(self).wf(),
            action == (ReceiverAction::Announced { create: info.name@.len() > 0 }),
            final(self)@ == (Desk {
                announcements: old(self)@.announcements + 1,
                ..with_reception(
                    old(self)@,
                    tag@,
                    announced(
                        reception_for(old(self)@, tag@, now),
                        info.name@,
                        info.size,
                        info.chunks,
                        info.sender_address@,
                        now,
                    ),
                )
            }),
    {
        self.sender_counter = self.sender_counter + 1;
        let mut state = if self.states.contains(tag) {
            self.take(tag)
        } else {
            ReceiveState::new(joined("S", &decimal_of(self.sender_counter as u64)), now)
        };
        assert(state@ == reception_for(old(self)@, tag@, now));
        let create = handle_file_info(info, now, &mut state);
        self.put(tag, state);
        assert(self@.receptions =~= old(self)@.receptions.insert(tag@, state@));
        ReceiverAction::Announced { create }
    }

    fn accept_chunk(&mut self, tag: &str, chunk: FileChunk, now: u64) -> (action: ReceiverAction)
        requires
            old(self).wf(),
        ensures
            final(self).wf(),
            if old(self)@.receptions.contains_key(tag@) {
                let m = old(self)@.receptions[tag@];
                let piece = Piece { data: chunk.data@, is_last: chunk.is_last };
                &&& action is Chunk
                &&& final(self)@ == with_reception(
                    old(self)@,
                    tag@,
                    if m.open {
                        stored(m, chunk.index, piece, now)
                    } else {
                        m
                    },
                )
            } else {
                action is UnknownSender && final(self)@ == old(self)@
            },
    {
        if !self.states.contains(tag) {
            return ReceiverAction::UnknownSender;
        }
        let mut state = self.take(tag);
        handle_file_chunk(chunk, now, &mut state);
        self.put(tag, state);
        assert(self@.receptions =~= old(self)@.receptions.insert(tag@, state@));
        ReceiverAction::Chunk
    }

    /// The tags under which files are received, in ascending order.
    pub fn tags(&self) -> (tags: Vec<String>)
        requires
            self.wf(),
        ensures
            crate::string_map::ascending(texts(tags@)),
            forall|tag: Seq<char>| #[trigger]
                texts(tags@).contains(tag) <==> self@.receptions.contains_key(tag),
    {
        self.states.sorted_keys()
    }

    /// The reception of a tag.
    pub fn reception(&self, tag: &str) -> (r: Option<&ReceiveState>)
        requires
            self.wf(),
        ensures
            r is Some <==> self@.receptions.contains_key(tag@),
            r matches Some(state) ==> state@ == self@.receptions[tag@] && state.wf(),
    {
        self.states.get(tag)
    }

    /// The file that was announced under a tag has been created.
    pub fn file_created(&mut self, tag: &str)
        requires
            old(self).wf(),
            old(self)@.receptions.contains_key(tag@),
            old(self)@.receptions[tag@].total == 0 || old(self)@.receptions[tag@].written
                < old(self)@.receptions[tag@].total,
        ensures
            final(self).wf(),
            final(self)@ == with_reception(
                old(self)@,
                tag@,
                opened(old(self)@.receptions[tag@]),
            ),
    {
        let mut state = self.take(tag);
        file_created(&mut state);
        self.put(tag, state);
        assert(self@.receptions =~= old(self)@.receptions.insert(tag@, state@));
    }

    /// Hands out the chunk that is to be written next under a tag, if it has arrived.
    pub fn take_next_chunk(&mut self, tag: &str) -> (chunk: Option<ReceivedChunk>)
        requires
            old(self).wf(),
            old(self)@.receptions.contains_key(tag@),
            room(old(self)@.receptions[tag@]),
        ensures
            final(self).wf(),
            chunk is Some <==> ready(old(self)@.receptions[tag@]),
            match chunk {
                Some(c) => {
                    let m = old(self)@.receptions[tag@];
                    c@ == m.pending[m.next] && final(self)@ == with_reception(
                        old(self)@,
                        tag@,
                        taken(m),
                    )
                },
                None => final(self)@ == old(self)@,
            },
    {
        let mut state = self.take(tag);
        let chunk = take_next_chunk(&mut state);
        self.put(tag, state);
        assert(self@.receptions =~= old(self)@.receptions.insert(tag@, state@));
        assert(chunk is None ==> self@.receptions =~= old(self)@.receptions);
        chunk
    }

    /// The chunk that was handed out last under a tag has been written.
    pub fn chunk_written(&mut self, tag: &str, is_last: bool) -> (report: WriteReport)
        requires
            old(self).wf(),
            old(self)@.receptions.contains_key(tag@),
            old(self)@.receptions[tag@].open,
            old(self)@.receptions[tag@].written < u32::MAX,
        ensures
            final(self).wf(),
            final(self)@ == with_reception(
                old(self)@,
                tag@,
                wrote(old(self)@.receptions[tag@], is_last),
            ),
            ({
                let m = old(self)@.receptions[tag@];
                let now = crate::receive::next_progress(m);
                &&& report.progress == if now == m.progress {
                    None::<i32>
                } else {
                    Some(now as i32)
                }
                &&& report.ended == crate::receive::ends(m, is_last)
                &&& report.whole == (m.written + 1 == m.total)
            }),
    {
        let mut state = self.take(tag);
        let report = chunk_written(is_last, &mut state);
        self.put(tag, state);
        assert(self@.receptions =~= old(self)@.receptions.insert(tag@, state@));
        report
    }

    /// Whether the file of a tag is complete; then the notice for its sender, if the sender is
    /// known, and the reception is over.
    pub fn finish(&mut self, tag: &str) -> (done: Option<Option<CompletionNotice>>)
        requires
            old(self).wf(),
            old(self)@.receptions.contains_key(tag@),
        ensures
            final(self).wf(),
            match done {
                Some(notice) => {
                    let m = old(self)@.receptions[tag@];
                    &&& complete(m)
                    &&& final(self)@ == (Desk {
                        receptions: old(self)@.receptions.remove(tag@),
                        ..old(self)@
                    })
                    &&& match notice {
                        Some(n) => {
                            &&& m.sender_address == Some(n.sender_address@)
                            &&& n.payload@ == crate::protocol::encode(
                                Message::TransferComplete {
                                    file_name: m.name,
                                    ripemd160_hash: crate::digest::ripemd160(m.hashed),
                                },
                            )
                            &&& n.hash@ == crate::text::hex_text(crate::digest::ripemd160(m.hashed))
                        },
                        None => m.sender_address is None,
                    }
                },
                None => !complete(old(self)@.receptions[tag@]) && final(self)@ == old(self)@,
            },
    {
        let state = self.take(tag);
        if state.is_complete() {
            return Some(send_transfer_complete(&state));
        }
        self.put(tag, state);
        assert(self@.receptions =~= old(self)@.receptions);
        None
    }

    /// Decides whether missing chunks of the file of a tag are to be asked for.
    pub fn check_resend(&mut self, tag: &str, now: u64) -> (step: ResendStep)
        requires
            old(self).wf(),
            old(self)@.receptions.contains_key(tag@),
        ensures
            final(self).wf(),
            ({
                let m = old(self)@.receptions[tag@];
                match step {
                    ResendStep::Nothing => {
                        &&& !crate::receive::resend_due(m, now) || (m.rounds
                            < crate::receive::MAX_RESEND_ROUNDS && crate::receive::missing(m).len()
                            == 0)
                        &&& final(self)@ == old(self)@
                    },
                    ResendStep::GaveUp => {
                        &&& crate::receive::resend_due(m, now)
                        &&& m.rounds == crate::receive::MAX_RESEND_ROUNDS
                        &&& final(self)@ == with_reception(
                            old(self)@,
                            tag@,
                            crate::receive::given_up(m),
                        )
                    },
                    ResendStep::Request(task) => {
                        &&& crate::receive::resend_due(m, now)
                        &&& m.rounds < crate::receive::MAX_RESEND_ROUNDS
                        &&& crate::receive::missing(m).len() > 0
                        &&& final(self)@ == with_reception(
                            old(self)@,
                            tag@,
                            crate::receive::asked_again(m),
                        )
                        &&& task.request.file_name@ == m.name
                        &&& task.request.missing_indices@ == crate::receive::missing(m)
                        &&& task.payload@ == crate::protocol::encode(task.request@)
                        &&& crate::text::optional_text(task.sender_address) == m.sender_address
                        &&& task.round == m.rounds + 1
                    },
                }
            }),
            step is Request <==> {
                let m = old(self)@.receptions[tag@];
                &&& m.open && m.written < m.total && now >= m.last_activity + 60_000_000_000
                &&& m.rounds < 10
                &&& exists|i: u32| m.next <= i < m.total && !#[trigger] m.pending.contains_key(i)
            },
            step is GaveUp <==> {
                let m = old(self)@.receptions[tag@];
                &&& m.open && m.written < m.total && now >= m.last_activity + 60_000_000_000
                &&& m.rounds == 10
            },
    {
        let mut state = self.take(tag);
        let step = check_and_request_resend(now, &mut state);
        self.put(tag, state);
        assert(self@.receptions =~= old(self)@.receptions.insert(tag@, state@));
        assert(step is Nothing ==> self@.receptions =~= old(self)@.receptions);
        step
    }

    /// A request for missing chunks was sent under a tag, or could not be.
    pub fn resend_attempted(&mut self, tag: &str, now: u64)
        requires
            old(self).wf(),
            old(self)@.receptions.contains_key(tag@),
        ensures
            final(self).wf(),
            final(self)@ == with_reception(
                old(self)@,
                tag@,
                crate::receive::active(old(self)@.receptions[tag@], now),
            ),
    {
        let mut state = self.take(tag);
        resend_attempted(now, &mut state);
        self.put(tag, state);
        assert(self@.receptions =~= old(self)@.receptions.insert(tag@, state@));
    }

    /// Forgets the receptions whose file is not open.
    pub fn prune(&mut self)
        requires
            old(self).wf(),
        ensures
            final(self).wf(),
            final(self)@ == pruned(old(self)@),
    {
        let tags = self.tags();
        let mut i: usize = 0;
        assert forall|j: int| 0 <= j < tags@.len() implies self@.receptions.contains_key(
            #[trigger] texts(tags@)[j],
        ) by {
            assert(texts(tags@).contains(texts(tags@)[j]));
        }
        while i < tags.len()
            invariant
                i <= tags@.len(),
                self.wf(),
                crate::string_map::ascending(texts(tags@)),
                forall|tag: Seq<char>| #[trigger]
                    texts(tags@).contains(tag) <==> old(self)@.receptions.contains_key(tag),
                self@.whitelist == old(self)@.whitelist,
                self@.quota_mib == old(self)@.quota_mib,
                self@.announcements == old(self)@.announcements,
                forall|tag: Seq<char>| #[trigger]
                    self@.receptions.contains_key(tag) ==> old(self)@.receptions.contains_key(tag)
                        && self@.receptions[tag] == old(self)@.receptions[tag],
                forall|j: int|
                    0 <= j < tags@.len() ==> (self@.receptions.contains_key(
                        #[trigger] texts(tags@)[j],
                    ) <==> j >= i || old(self)@.receptions[texts(tags@)[j]].open),
            decreases tags.len() - i,
        {
            let tag: &str = tags[i].as_str();
            assert(tag@ == texts(tags@)[i as int]);
            assert(self@.receptions.contains_key(tag@));
            let open = match self.reception(tag) {
                Some(state) => state.file_open,
                None => true,
            };
            let ghost before = self@.receptions;
            assert(before[tag@] == old(self)@.receptions[tag@]);
            assert(open == before[tag@].open);
            if !open {
                let _ = self.take(tag);
            }
            assert(self@.receptions == if open {
                before
            } else {
                before.remove(tag@)
            });
            proof {
                assert forall|j: int| 0 <= j < tags@.len() implies (self@.receptions.contains_key(
                    #[trigger] texts(tags@)[j],
                ) <==> j >= i + 1 || old(self)@.receptions[texts(tags@)[j]].open) by {
                    if j != i {
                        let low = if j < i { j } else { i as int };
                        let high = if j < i { i as int } else { j };
                        assert(crate::text::text_before(texts(tags@)[low], texts(tags@)[high]));
                        crate::text::lemma_before_irreflexive(texts(tags@)[i as int]);
                        assert(texts(tags@)[j] != texts(tags@)[i as int]);
                    }
                    assert(before.contains_key(texts(tags@)[j]) <==> j >= i
                        || old(self)@.receptions[texts(tags@)[j]].open);
                }
            }
            i = i + 1;
        }
        proof {
            let kept = pruned(old(self)@).receptions;
            assert forall|tag: Seq<char>| #[trigger]
                self@.receptions.contains_key(tag) == kept.contains_key(tag) && (
            kept.contains_key(tag) ==> self@.receptions[tag] == kept[tag]) by {
                if old(self)@.receptions.contains_key(tag) {
                    assert(texts(tags@).contains(tag));
                    let j = choose|j: int| 0 <= j < texts(tags@).len() && texts(tags@)[j] == tag;
                    assert(self@.receptions.contains_key(texts(tags@)[j]) <==> old(
                        self,
                    )@.receptions[texts(tags@)[j]].open);
                }
            }
            assert(self@.receptions =~= kept);
        }
    }
}

/// Every offer that can be read is answered, whoever sends it: the answer can be read back, names the
/// file that was offered, and accepts it exactly if the whitelist holds the sender and the quota the
/// size.
pub proof fn law_offer_is_answered(desk: Desk, raw: Seq<u8>, answer: OfferAnswer)
    requires
        crate::protocol::decode(raw) matches Ok(message) && message is TransferOffer && answers(
            answer,
            desk,
            message,
        ),
    ensures
        crate::protocol::decode(raw) matches Ok(
            Message::TransferOffer { file_name, size, sender_address },
        ) && crate::protocol::decode(answer.payload@) == Ok::<
            Message,
            crate::protocol::ProtocolError,
        >(
            Message::TransferAccept {
                file_name,
                accepted: listed(desk, sender_address) && within_quota(desk, size),
            },
        ),
{
    crate::protocol_laws::law_bytes_of_a_read_message(raw);
    match crate::protocol::decode(raw)->Ok_0 {
        Message::TransferOffer { file_name, size, sender_address } => {
            let accept = Message::TransferAccept {
                file_name,
                accepted: admits(desk, sender_address, size),
            };
            crate::protocol_laws::law_round_trip(accept, Seq::empty());
            assert(crate::protocol::encode(accept) + Seq::<u8>::empty()
                =~= crate::protocol::encode(accept));
        },
        _ => {},
    }
}

/// What comes under one tag changes nothing of what is received under another.
pub proof fn law_senders_are_apart(desk: Desk, tag: Seq<char>, m: Reception, other: Seq<char>)
    requires
        tag != other,
    ensures
        with_reception(desk, tag, m).receptions.contains_key(other)
            == desk.receptions.contains_key(other),
        desk.receptions.contains_key(other) ==> with_reception(desk, tag, m).receptions[other]
            == desk.receptions[other],
{
}

/// An offer is accepted exactly if the sender is one of those in the whitelist, where there is one, and
/// the file is not larger than the quota, where there is one. The reason for a refusal tells which of the
/// two it was, or that it was both.
pub proof fn law_offer_is_judged(desk: Desk, offer: TransferOffer, answer: OfferAnswer)
    requires
        answers(answer, desk, offer@),
    ensures
        ({
            let may_send = desk.whitelist is None || exists|i: int|
                0 <= i < desk.whitelist->0.len() && #[trigger] desk.whitelist->0[i]
                    == offer.sender_address@;
            let fits = desk.quota_mib is None || offer.size <= desk.quota_mib->0 * 1_048_576;
            let mib = decimal(desk.quota_mib->0 as nat);
            &&& answer.accepted == (may_send && fits)
            &&& answer.reason is None <==> may_send && fits
            &&& !may_send && fits ==> answer.reason->0@ == "not in whitelist"@
            &&& may_send && !fits ==> answer.reason->0@ == "exceeds quota of "@ + mib
                + " MiB (offered: "@ + size_text(signed(offer.size)) + ")"@
            &&& !may_send && !fits ==> answer.reason->0@
                == "not in whitelist AND exceeds quota (max "@ + mib + " MiB)"@
        }),
{
}

/// With a whitelist and no quota an offer of any size is accepted exactly if some entry of the whitelist
/// is the address of the sender; without both every offer is accepted. A longer whitelist and a larger
/// quota refuse no offer that was accepted.
pub proof fn law_whitelist_and_quota(
    desk: Desk,
    list: Seq<Seq<char>>,
    more: Seq<Seq<char>>,
    quota: u64,
    larger: u64,
    sender_address: Seq<char>,
    size: u64,
)
    requires
        quota <= larger,
    ensures
        ({
            let listed = Desk { whitelist: Some(list), quota_mib: None, ..desk };
            admits(listed, sender_address, size) <==> exists|i: int|
                0 <= i < list.len() && #[trigger] list[i] == sender_address
        }),
        ({
            let limited = Desk { whitelist: None, quota_mib: Some(quota), ..desk };
            admits(limited, sender_address, size) <==> size <= quota * 1_048_576
        }),
        admits(Desk { whitelist: None, quota_mib: None, ..desk }, sender_address, size),
        ({
            let strict = Desk { whitelist: Some(list), quota_mib: Some(quota), ..desk };
            let lax = Desk { whitelist: Some(list + more), quota_mib: Some(larger), ..desk };
            admits(strict, sender_address, size) ==> admits(lax, sender_address, size)
        }),
{
    if list.contains(sender_address) {
        let i = choose|i: int| 0 <= i < list.len() && list[i] == sender_address;
        assert((list + more)[i] == sender_address);
    }
    assert(quota * 1_048_576 <= larger * 1_048_576);
}

/// What is put under a tag is found under it.
pub proof fn law_reception_is_kept(desk: Desk, tag: Seq<char>, m: Reception)
    ensures
        ({
            let after = with_reception(desk, tag, m);
            &&& after.receptions.contains_key(tag)
            &&& after.receptions[tag] == m
            &&& after.whitelist == desk.whitelist
            &&& after.quota_mib == desk.quota_mib
            &&& after.announcements == desk.announcements
        }),
{
}

/// A sender that is known keeps its reception and what it is called; a new one is called by the number of
/// the announcement.
pub proof fn law_senders_are_numbered(desk: Desk, tag: Seq<char>, now: u64)
    requires
        desk.announcements >= 0,
    ensures
        desk.receptions.contains_key(tag) ==> reception_for(desk, tag, now) == desk.receptions[tag],
        !desk.receptions.contains_key(tag) ==> {
            let m = reception_for(desk, tag, now);
            &&& m.sender_id == "S"@ + decimal((desk.announcements + 1) as nat)
            &&& !m.open && m.total == 0 && m.written == 0 && m.last_activity == now
        },
{
}

/// Exactly the receptions whose file is open are kept, and nothing else changes.
pub proof fn law_pruning_keeps_open_files(desk: Desk, tag: Seq<char>)
    ensures
        pruned(desk).receptions.contains_key(tag) <==> desk.receptions.contains_key(tag)
            && desk.receptions[tag].open,
        pruned(desk).receptions.contains_key(tag) ==> pruned(desk).receptions[tag]
            == desk.receptions[tag],
        pruned(desk).whitelist == desk.whitelist,
        pruned(desk).quota_mib == desk.quota_mib,
        pruned(desk).announcements == desk.announcements,
{
}

/// What a receiver stands for is what it holds: all entries of its whitelist in order, its quota, and the
/// state of every sender.
pub proof fn law_receiver_is_seen_whole(receiver: Receiver, tag: Seq<char>)
    ensures
        receiver@.quota_mib == receiver.quota_mib,
        receiver@.announcements == receiver.sender_counter,
        receiver@.whitelist is Some <==> receiver.whitelist is Some,
        receiver.whitelist matches Some(list) ==> {
            &&& receiver@.whitelist->0.len() == list@.len()
            &&& forall|i: int|
                0 <= i < list@.len() ==> (#[trigger] list@[i])@ == receiver@.whitelist->0[i]
        },
        receiver@.receptions.contains_key(tag) <==> receiver.states@.contains_key(tag),
        receiver.states@.contains_key(tag) ==> receiver@.receptions[tag] == receiver.states@[tag]@,
{
}

} // verus!
