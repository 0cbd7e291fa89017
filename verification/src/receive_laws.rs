//! What the receiving end makes of chunks, in whatever order they arrive.
use vstd::prelude::*;
use crate::digest::ripemd160;
use crate::receive::{
    active, announced, asked_again, complete, consistent, ends, given_up, idle, missing,
    missing_between, next_progress, opened, ready, resend_due, stored, taken, wrote, Piece,
    ReceiveState, Reception, ResendStep,
};
use crate::send::{chunks_of, law_chunks_hold_the_file, CHUNK_SIZE};
use crate::send_session::{hash_verdict, Outcome};
use crate::text::hex_text;

verus! {

/// The bytes of some pieces, one after the other.
pub open spec fn content(pieces: Seq<Piece>) -> Seq<u8>
    decreases pieces.len(),
{
    if pieces.len() == 0 {
        Seq::empty()
    } else {
        content(pieces.drop_last()) + pieces.last().data
    }
}

/// Whether pieces are what a file was cut into: there is one at least, they can be numbered, and
/// none but the last is marked as the last.
pub open spec fn cut(pieces: Seq<Piece>) -> bool {
    &&& 0 < pieces.len() <= u32::MAX
    &&& forall|i: int| 0 <= i < pieces.len() - 1 ==> !(#[trigger] pieces[i]).is_last
}

/// Writes all that can be written: the reception after it, and the file `out` with what was added.
pub open spec fn drain(m: Reception, out: Seq<u8>) -> (Reception, Seq<u8>)
    decreases u32::MAX - m.next,
{
    if ready(m) && m.next < u32::MAX {
        let piece = m.pending[m.next];
        drain(wrote(taken(m), piece.is_last), out + piece.data)
    } else {
        (m, out)
    }
}

/// A chunk arrives, and all that can be written is written.
pub open spec fn deliver(
    m: Reception,
    out: Seq<u8>,
    index: u32,
    piece: Piece,
    now: u64,
) -> (Reception, Seq<u8>) {
    if m.open {
        drain(stored(m, index, piece, now), out)
    } else {
        (m, out)
    }
}

/// Pieces arrive one after the other: at each time the one with the index that is given with it.
pub open spec fn receive_all(
    m: Reception,
    out: Seq<u8>,
    pieces: Seq<Piece>,
    arrivals: Seq<(u32, u64)>,
) -> (Reception, Seq<u8>)
    decreases arrivals.len(),
{
    if arrivals.len() == 0 {
        (m, out)
    } else {
        let (before, written) = receive_all(m, out, pieces, arrivals.drop_last());
        let (index, now) = arrivals.last();
        deliver(before, written, index, pieces[index as int], now)
    }
}

/// Whether only pieces that exist arrive.
pub open spec fn arrivals_exist(pieces: Seq<Piece>, arrivals: Seq<(u32, u64)>) -> bool {
    forall|k: int| 0 <= k < arrivals.len() ==> (#[trigger] arrivals[k]).0 < pieces.len()
}

/// Whether the piece with an index arrives.
pub open spec fn arrives(arrivals: Seq<(u32, u64)>, index: int) -> bool {
    exists|k: int| 0 <= k < arrivals.len() && (#[trigger] arrivals[k]).0 == index
}

/// How things stand when the pieces that `seen` holds have arrived.
spec fn stands(m: Reception, out: Seq<u8>, pieces: Seq<Piece>, seen: spec_fn(int) -> bool) -> bool {
    &&& consistent(m)
    &&& m.total == pieces.len()
    &&& m.written <= m.total
    &&& m.open == (m.written < m.total)
    &&& out == content(pieces.take(m.written as int))
    &&& m.hashed == out
    &&& !m.open ==> m.pending == Map::<u32, Piece>::empty()
    &&& forall|i: int| 0 <= i < m.written ==> #[trigger] seen(i)
    &&& m.open ==> forall|i: u32| #[trigger]
        m.pending.contains_key(i) ==> i < m.total && m.pending[i] == pieces[i as int]
    &&& m.open ==> forall|i: u32|
        m.written <= i < m.total ==> (#[trigger] m.pending.contains_key(i) <==> seen(i as int))
}

proof fn lemma_content_grows(pieces: Seq<Piece>, n: int)
    requires
        0 <= n < pieces.len(),
    ensures
        content(pieces.take(n + 1)) == content(pieces.take(n)) + pieces[n].data,
{
    assert(pieces.take(n + 1).drop_last() =~= pieces.take(n));
    assert(pieces.take(n + 1).last() == pieces[n]);
}

proof fn lemma_drain(m: Reception, out: Seq<u8>, pieces: Seq<Piece>, seen: spec_fn(int) -> bool)
    requires
        cut(pieces),
        stands(m, out, pieces, seen),
    ensures
        stands(drain(m, out).0, drain(m, out).1, pieces, seen),
        !ready(drain(m, out).0),
        drain(m, out).0.name == m.name,
        drain(m, out).0.sender_address == m.sender_address,
        drain(m, out).0.rounds == m.rounds,
    decreases u32::MAX - m.next,
{
    if ready(m) {
        let piece = m.pending[m.next];
        let after = wrote(taken(m), piece.is_last);
        let written = out + piece.data;
        lemma_content_grows(pieces, m.written as int);
        assert(piece == pieces[m.written as int]);
        assert(seen(m.written as int));
        assert(piece.is_last ==> m.written + 1 == m.total);
        assert(stands(after, written, pieces, seen));
        lemma_drain(after, written, pieces, seen);
    }
}

proof fn lemma_deliver(
    m: Reception,
    out: Seq<u8>,
    pieces: Seq<Piece>,
    seen: spec_fn(int) -> bool,
    index: u32,
    now: u64,
)
    requires
        cut(pieces),
        stands(m, out, pieces, seen),
        index < pieces.len(),
    ensures
        ({
            let (after, written) = deliver(m, out, index, pieces[index as int], now);
            let seen_now = |i: int| seen(i) || i == index;
            &&& stands(after, written, pieces, seen_now)
            &&& !ready(after)
            &&& after.name == m.name
            &&& after.sender_address == m.sender_address
            &&& after.rounds == m.rounds
        }),
{
    let seen_now = |i: int| seen(i) || i == index;
    if m.open {
        let held = stored(m, index, pieces[index as int], now);
        assert(stands(held, out, pieces, seen_now)) by {
            assert forall|i: u32| held.written <= i < held.total implies (
            #[trigger] held.pending.contains_key(i) <==> seen_now(i as int)) by {
                assert(m.pending.contains_key(i) <==> seen(i as int));
            }
            assert forall|i: int| 0 <= i < held.written implies #[trigger] seen_now(i) by {
                assert(seen(i));
            }
        }
        lemma_drain(held, out, pieces, seen_now);
    } else {
        assert forall|i: int| 0 <= i < m.written implies #[trigger] seen_now(i) by {
            assert(seen(i));
        }
    }
}

proof fn lemma_same_seen(
    m: Reception,
    out: Seq<u8>,
    pieces: Seq<Piece>,
    first: spec_fn(int) -> bool,
    second: spec_fn(int) -> bool,
)
    requires
        stands(m, out, pieces, first),
        forall|i: int| #[trigger] first(i) == second(i),
    ensures
        stands(m, out, pieces, second),
{
    assert(first =~= second);
}

proof fn lemma_receive_all(
    m: Reception,
    out: Seq<u8>,
    pieces: Seq<Piece>,
    seen: spec_fn(int) -> bool,
    arrivals: Seq<(u32, u64)>,
)
    requires
        cut(pieces),
        stands(m, out, pieces, seen),
        !ready(m),
        arrivals_exist(pieces, arrivals),
    ensures
        ({
            let (after, written) = receive_all(m, out, pieces, arrivals);
            let seen_now = |i: int| seen(i) || arrives(arrivals, i);
            &&& stands(after, written, pieces, seen_now)
            &&& !ready(after)
            &&& after.name == m.name
            &&& after.sender_address == m.sender_address
            &&& after.rounds == m.rounds
        }),
    decreases arrivals.len(),
{
    let seen_now = |i: int| seen(i) || arrives(arrivals, i);
    if arrivals.len() == 0 {
        assert forall|i: int| #[trigger] seen(i) == seen_now(i) by {
            assert(!arrives(arrivals, i));
        }
        lemma_same_seen(m, out, pieces, seen, seen_now);
    } else {
        let earlier = arrivals.drop_last();
        let (index, now) = arrivals.last();
        assert forall|k: int| 0 <= k < earlier.len() implies (#[trigger] earlier[k]).0
            < pieces.len() by {
            assert(earlier[k] == arrivals[k]);
        }
        assert(arrivals[arrivals.len() - 1].0 < pieces.len());
        lemma_receive_all(m, out, pieces, seen, earlier);
        let (before, written) = receive_all(m, out, pieces, earlier);
        let seen_before = |i: int| seen(i) || arrives(earlier, i);
        lemma_deliver(before, written, pieces, seen_before, index, now);
        let seen_after = |i: int| seen_before(i) || i == index;
        let (after, all) = receive_all(m, out, pieces, arrivals);
        assert forall|i: int| #[trigger] seen_after(i) == seen_now(i) by {
            if arrives(earlier, i) {
                let k = choose|k: int| 0 <= k < earlier.len() && (#[trigger] earlier[k]).0 == i;
                assert(arrivals[k].0 == i);
            }
            if i == index {
                assert(arrivals[arrivals.len() - 1].0 == i);
            }
            if arrives(arrivals, i) {
                let k = choose|k: int| 0 <= k < arrivals.len() && (#[trigger] arrivals[k]).0 == i;
                if k < earlier.len() {
                    assert(earlier[k].0 == i);
                }
            }
        }
        lemma_same_seen(after, all, pieces, seen_after, seen_now);
    }
}

/// The reception of an announced file of `chunks` chunks, once the file has been created.
pub open spec fn started(
    m: Reception,
    name: Seq<char>,
    size: u64,
    chunks: u32,
    sender_address: Seq<char>,
    now: u64,
) -> Reception {
    opened(announced(m, name, size, chunks, sender_address, now))
}

proof fn lemma_started(
    m: Reception,
    name: Seq<char>,
    size: u64,
    sender_address: Seq<char>,
    now: u64,
    pieces: Seq<Piece>,
)
    requires
        cut(pieces),
    ensures
        stands(
            started(m, name, size, pieces.len() as u32, sender_address, now),
            Seq::empty(),
            pieces,
            |i: int| false,
        ),
        !ready(started(m, name, size, pieces.len() as u32, sender_address, now)),
{
    assert(pieces.take(0) =~= Seq::empty());
}

/// Chunks in any order, and any of them any number of times, give the file: what is written is
/// always the longest beginning of the file all of whose chunks have arrived, what is hashed is what
/// is written, and the file stays open until its last chunk is written.
pub proof fn law_any_order_gives_the_file(
    m: Reception,
    name: Seq<char>,
    size: u64,
    sender_address: Seq<char>,
    now: u64,
    pieces: Seq<Piece>,
    arrivals: Seq<(u32, u64)>,
)
    requires
        cut(pieces),
        arrivals_exist(pieces, arrivals),
    ensures
        ({
            let start = started(m, name, size, pieces.len() as u32, sender_address, now);
            let (after, out) = receive_all(start, Seq::empty(), pieces, arrivals);
            &&& after.total == pieces.len()
            &&& after.next == after.written
            &&& after.written <= pieces.len()
            &&& !after.open ==> after.pending == Map::<u32, Piece>::empty()
            &&& out == content(pieces.take(after.written as int))
            &&& after.hashed == out
            &&& after.open == (after.written < pieces.len())
            &&& forall|i: int| 0 <= i < after.written ==> #[trigger] arrives(arrivals, i)
            &&& after.written < pieces.len() ==> !arrives(arrivals, after.written as int)
            &&& after.name == name
            &&& after.sender_address == Some(sender_address)
        }),
{
    let start = started(m, name, size, pieces.len() as u32, sender_address, now);
    let none = |i: int| false;
    lemma_started(m, name, size, sender_address, now, pieces);
    lemma_receive_all(start, Seq::empty(), pieces, none, arrivals);
    let (after, out) = receive_all(start, Seq::<u8>::empty(), pieces, arrivals);
    let seen = |i: int| none(i) || arrives(arrivals, i);
    assert forall|i: int| 0 <= i < after.written implies #[trigger] arrives(arrivals, i) by {
        assert(seen(i));
    }
    if after.written < pieces.len() {
        assert(!after.pending.contains_key(after.written));
        assert(!seen(after.written as int));
    }
}

/// Once every chunk has arrived, the file is complete and closed: it holds the bytes of all the
/// chunks in order, each was hashed once, no chunk is expected and none waits, and the digest in the
/// notice for the sender is that of these bytes.
pub proof fn law_all_chunks_complete_the_file(
    m: Reception,
    name: Seq<char>,
    size: u64,
    sender_address: Seq<char>,
    now: u64,
    pieces: Seq<Piece>,
    arrivals: Seq<(u32, u64)>,
)
    requires
        cut(pieces),
        arrivals_exist(pieces, arrivals),
        forall|i: int| 0 <= i < pieces.len() ==> #[trigger] arrives(arrivals, i),
    ensures
        ({
            let start = started(m, name, size, pieces.len() as u32, sender_address, now);
            let (after, out) = receive_all(start, Seq::empty(), pieces, arrivals);
            &&& complete(after)
            &&& after.next == pieces.len()
            &&& after.written == pieces.len()
            &&& after.pending == Map::<u32, Piece>::empty()
            &&& out == content(pieces)
            &&& after.hashed == out
            &&& ripemd160(after.hashed) == ripemd160(content(pieces))
        }),
{
    law_any_order_gives_the_file(m, name, size, sender_address, now, pieces, arrivals);
    assert(pieces.take(pieces.len() as int) =~= pieces);
}

/// The request for missing chunks names exactly the chunks that are neither written nor waiting to
/// be, each once and in ascending order.
pub proof fn law_missing_chunks(m: Reception)
    ensures
        forall|i: u32| #[trigger]
            missing(m).contains(i) <==> m.next <= i < m.total && !m.pending.contains_key(i),
        forall|j: int, k: int|
            #![trigger missing(m)[j], missing(m)[k]]
            0 <= j < k < missing(m).len() ==> missing(m)[j] < missing(m)[k],
{
    if m.next <= m.total {
        lemma_missing_between(m.pending, m.next as int, m.total as int);
    }
}

proof fn lemma_missing_between(pending: Map<u32, Piece>, from: int, to: int)
    requires
        0 <= from <= to <= u32::MAX,
    ensures
        forall|i: u32| #[trigger]
            missing_between(pending, from, to).contains(i) <==> from <= i < to
                && !pending.contains_key(i),
        forall|j: int, k: int|
            #![trigger missing_between(pending, from, to)[j], missing_between(pending, from, to)[k]]
            0 <= j < k < missing_between(pending, from, to).len() ==> missing_between(
                pending,
                from,
                to,
            )[j] < missing_between(pending, from, to)[k],
    decreases to - from,
{
    if from < to {
        lemma_missing_between(pending, from, to - 1);
        let before = missing_between(pending, from, to - 1);
        let last = (to - 1) as u32;
        let all = missing_between(pending, from, to);
        if !pending.contains_key(last) {
            assert(all == before.push(last));
            assert forall|i: u32| #[trigger] all.contains(i) <==> from <= i < to && !pending.contains_key(
                i,
            ) by {
                if i == last {
                    assert(all[before.len() as int] == i);
                }
                if before.contains(i) {
                    let k = choose|k: int| 0 <= k < before.len() && before[k] == i;
                    assert(all[k] == i);
                }
                if all.contains(i) && i != last {
                    let k = choose|k: int| 0 <= k < all.len() && all[k] == i;
                    assert(before[k] == i);
                }
            }
            assert forall|j: int, k: int| #![trigger all[j], all[k]]
                0 <= j < k < all.len() implies all[j] < all[k] by {
                assert(all[j] == before[j]);
                if k == before.len() {
                    assert(before.contains(before[j]));
                } else {
                    assert(all[k] == before[k]);
                }
            }
        }
    }
}

/// What the request names is what the file lacks: when the named chunks arrive after it, in any
/// order, the file is complete.
pub proof fn law_requested_chunks_complete_the_file(
    m: Reception,
    name: Seq<char>,
    size: u64,
    sender_address: Seq<char>,
    now: u64,
    pieces: Seq<Piece>,
    arrivals: Seq<(u32, u64)>,
    asked: u64,
    later: Seq<(u32, u64)>,
)
    requires
        cut(pieces),
        arrivals_exist(pieces, arrivals),
        arrivals_exist(pieces, later),
        ({
            let start = started(m, name, size, pieces.len() as u32, sender_address, now);
            let (before, out) = receive_all(start, Seq::empty(), pieces, arrivals);
            &&& before.open
            &&& forall|i: u32| #[trigger]
                missing(before).contains(i) ==> arrives(later, i as int)
        }),
    ensures
        ({
            let start = started(m, name, size, pieces.len() as u32, sender_address, now);
            let (before, out) = receive_all(start, Seq::empty(), pieces, arrivals);
            let (after, all) = receive_all(active(asked_again(before), asked), out, pieces, later);
            &&& complete(after)
            &&& after.next == pieces.len()
            &&& after.pending == Map::<u32, Piece>::empty()
            &&& all == content(pieces)
            &&& after.hashed == content(pieces)
        }),
{
    let start = started(m, name, size, pieces.len() as u32, sender_address, now);
    let none = |i: int| false;
    lemma_started(m, name, size, sender_address, now, pieces);
    lemma_receive_all(start, Seq::empty(), pieces, none, arrivals);
    let (before, out) = receive_all(start, Seq::<u8>::empty(), pieces, arrivals);
    let seen = |i: int| none(i) || arrives(arrivals, i);
    let again = active(asked_again(before), asked);
    assert(stands(again, out, pieces, seen));
    lemma_receive_all(again, out, pieces, seen, later);
    let (after, all) = receive_all(again, out, pieces, later);
    let seen_all = |i: int| seen(i) || arrives(later, i);
    law_missing_chunks(before);
    if after.written < after.total {
        let i = after.written;
        assert(!seen_all(i as int));
        assert(!seen(i as int));
        assert(i >= before.written);
        assert(!before.pending.contains_key(i));
        assert(missing(before).contains(i));
        assert(false);
    }
    assert(pieces.take(pieces.len() as int) =~= pieces);
}

/// Every step of a reception keeps it consistent: chunks are written in order from the first, and
/// the file is open only while some are to come.
pub proof fn law_steps_keep_consistency(
    m: Reception,
    name: Seq<char>,
    size: u64,
    chunks: u32,
    sender_address: Seq<char>,
    index: u32,
    piece: Piece,
    now: u64,
)
    requires
        consistent(m),
    ensures
        consistent(started(m, name, size, chunks, sender_address, now)),
        consistent(stored(m, index, piece, now)),
        consistent(taken(m)),
        m.open && m.written < u32::MAX ==> consistent(wrote(m, piece.is_last)),
        consistent(given_up(m)),
        m.rounds < crate::receive::MAX_RESEND_ROUNDS ==> consistent(asked_again(m)),
        consistent(active(m, now)),
{
}

/// A file that could not be completed is closed for good: no chunk changes anything until another
/// file is announced.
pub proof fn law_closed_file_stays_closed(
    m: Reception,
    out: Seq<u8>,
    index: u32,
    piece: Piece,
    now: u64,
)
    requires
        !m.open,
    ensures
        deliver(m, out, index, piece, now) == (m, out),
{
}

/// Where the chunk with an index ends in a file of `len` bytes.
pub open spec fn chunk_end(len: nat, index: int) -> int {
    if (index + 1) * CHUNK_SIZE < len {
        (index + 1) * CHUNK_SIZE
    } else {
        len as int
    }
}

/// What a file is cut into: chunks of one size, but for the last.
pub open spec fn pieces_of(file: Seq<u8>) -> Seq<Piece> {
    let n = chunks_of(file.len());
    Seq::new(
        n,
        |i: int|
            Piece {
                data: file.subrange(i * CHUNK_SIZE, chunk_end(file.len(), i)),
                is_last: i == n - 1,
            },
    )
}

proof fn lemma_beginning(file: Seq<u8>, n: int)
    requires
        0 < file.len() <= crate::rounding::DOUBLE_RANGE,
        0 <= n <= chunks_of(file.len()),
    ensures
        0 <= n * CHUNK_SIZE < file.len() + CHUNK_SIZE,
        content(pieces_of(file).take(n)) == if n * CHUNK_SIZE < file.len() {
            file.take(n * CHUNK_SIZE)
        } else {
            file
        },
    decreases n,
{
    law_chunks_hold_the_file(file.len());
    let pieces = pieces_of(file);
    if n == 0 {
        assert(pieces.take(0) =~= Seq::empty());
        assert(file.take(0) =~= Seq::empty());
    } else {
        lemma_beginning(file, n - 1);
        lemma_content_grows(pieces, n - 1);
        let start = (n - 1) * CHUNK_SIZE;
        assert(start < file.len());
        assert(pieces[n - 1].data == file.subrange(start, chunk_end(file.len(), n - 1)));
        if n * CHUNK_SIZE < file.len() {
            assert(file.take(start) + file.subrange(start, n * CHUNK_SIZE) =~= file.take(
                n * CHUNK_SIZE,
            ));
        } else {
            assert(file.take(start) + file.subrange(start, file.len() as int) =~= file);
        }
    }
}

/// The chunks of a file, one after the other, are the file, and they are cut as a receiver expects them.
pub proof fn law_pieces_make_the_file(file: Seq<u8>)
    requires
        0 < file.len() <= crate::rounding::DOUBLE_RANGE,
        chunks_of(file.len()) <= u32::MAX,
    ensures
        cut(pieces_of(file)),
        content(pieces_of(file)) == file,
{
    law_chunks_hold_the_file(file.len());
    let n = chunks_of(file.len()) as int;
    lemma_beginning(file, n);
    assert(pieces_of(file).take(n) =~= pieces_of(file));
}

/// Where the pieces that a file is cut into arrive, in any order, they make up that file: its bytes are
/// written, and the digest that the sender is told is the one that it has itself. (How a piece is put into
/// a message, and taken out of it, is not part of this.)
pub proof fn law_transfer_is_faithful(
    m: Reception,
    name: Seq<char>,
    size: u64,
    sender_address: Seq<char>,
    now: u64,
    file: Seq<u8>,
    arrivals: Seq<(u32, u64)>,
)
    requires
        0 < file.len() <= crate::rounding::DOUBLE_RANGE,
        chunks_of(file.len()) <= u32::MAX,
        arrivals_exist(pieces_of(file), arrivals),
        forall|i: int| 0 <= i < chunks_of(file.len()) ==> #[trigger] arrives(arrivals, i),
    ensures
        ({
            let pieces = pieces_of(file);
            let start = started(m, name, size, pieces.len() as u32, sender_address, now);
            let (after, out) = receive_all(start, Seq::empty(), pieces, arrivals);
            &&& complete(after)
            &&& out == file
            &&& hash_verdict(
                hex_text(ripemd160(after.hashed)),
                hex_text(ripemd160(file)),
            ) == Outcome::Match
        }),
{
    law_pieces_make_the_file(file);
    let pieces = pieces_of(file);
    law_any_order_gives_the_file(m, name, size, sender_address, now, pieces, arrivals);
    law_all_chunks_complete_the_file(m, name, size, sender_address, now, pieces, arrivals);
    assert(pieces.take(pieces.len() as int) =~= pieces);
}

// ---------------------------------------------------------------------------------------------
// Silence
// ---------------------------------------------------------------------------------------------

/// Missing chunks are to be asked for exactly if the file is open, not all of it is written, and for a
/// minute nothing has happened. There is something to ask for exactly if the chunk at some index that is
/// still to be written has not arrived.
pub proof fn law_silence(m: Reception, now: u64)
    ensures
        resend_due(m, now) <==> m.open && m.written < m.total && now >= m.last_activity
            + 60_000_000_000,
        missing(m).len() > 0 <==> exists|i: u32|
            m.next <= i < m.total && !#[trigger] m.pending.contains_key(i),
{
    law_missing_chunks(m);
    if missing(m).len() > 0 {
        assert(missing(m).contains(missing(m)[0]));
    }
    if exists|i: u32| m.next <= i < m.total && !#[trigger] m.pending.contains_key(i) {
        let i = choose|i: u32| m.next <= i < m.total && !#[trigger] m.pending.contains_key(i);
        assert(missing(m).contains(i));
    }
}

/// After a minute of silence every chunk that has not arrived is asked for, ten times at most; after that
/// the file is given up. As long as a chunk is awaited and the times are not used up, no silence of a
/// minute goes by without a request that names it.
pub proof fn law_lost_chunks_are_asked_for(
    m: Reception,
    now: u64,
    step: ResendStep,
    after: Reception,
    lost: u32,
)
    requires
        consistent(m),
        m.open,
        m.written <= lost < m.total,
        !m.pending.contains_key(lost),
        now >= m.last_activity + 60_000_000_000,
        match step {
            ResendStep::Nothing => {
                &&& !resend_due(m, now) || (m.rounds < crate::receive::MAX_RESEND_ROUNDS
                    && missing(m).len() == 0)
                &&& after == m
            },
            ResendStep::GaveUp => {
                &&& resend_due(m, now)
                &&& m.rounds == crate::receive::MAX_RESEND_ROUNDS
                &&& after == given_up(m)
            },
            ResendStep::Request(task) => {
                &&& resend_due(m, now)
                &&& m.rounds < crate::receive::MAX_RESEND_ROUNDS
                &&& missing(m).len() > 0
                &&& after == asked_again(m)
                &&& task.request.missing_indices@ == missing(m)
            },
        },
    ensures
        m.rounds < 10 ==> {
            &&& step matches ResendStep::Request(task) && task.request.missing_indices@.contains(lost)
            &&& after.rounds == m.rounds + 1
            &&& after.open
            &&& after.pending == m.pending
            &&& after.written == m.written
        },
        m.rounds == 10 ==> step is GaveUp && !after.open,
{
    law_silence(m, now);
    law_missing_chunks(m);
}

// ---------------------------------------------------------------------------------------------
// Each step by itself
// ---------------------------------------------------------------------------------------------

/// Of a sender of whom nothing came nothing is known but what the sender is called.
pub proof fn law_nothing_is_known_at_first(sender_id: Seq<char>, now: u64)
    ensures
        ({
            let m = idle(sender_id, now);
            &&& !m.open && m.name.len() == 0 && m.size == 0 && m.total == 0
            &&& m.next == 0 && m.written == 0 && m.progress == -1 && m.rounds == 0
            &&& m.pending.dom() == Set::<u32>::empty()
            &&& m.hashed.len() == 0
            &&& m.sender_address is None
            &&& m.last_activity == now
            &&& m.sender_id == sender_id
            &&& consistent(m)
            &&& !complete(m)
        }),
{
    assert(idle(sender_id, now).pending.dom() =~= Set::<u32>::empty());
}

/// The announcement of a file leaves nothing of another: no chunk waits, nothing is written or hashed, and
/// missing chunks were not asked for. The sender keeps what it is called.
pub proof fn law_announcement_starts_anew(
    m: Reception,
    name: Seq<char>,
    size: u64,
    chunks: u32,
    sender_address: Seq<char>,
    now: u64,
)
    ensures
        ({
            let a = announced(m, name, size, chunks, sender_address, now);
            &&& a.name == name && a.size == size && a.total == chunks
            &&& a.sender_address == Some(sender_address)
            &&& a.sender_id == m.sender_id
            &&& a.last_activity == now
            &&& !a.open
            &&& a.next == 0 && a.written == 0 && a.progress == -1 && a.rounds == 0
            &&& forall|i: u32| !#[trigger] a.pending.contains_key(i)
            &&& a.hashed.len() == 0
            &&& opened(a).open
            &&& (Reception { open: false, ..opened(a) }) == a
        }),
{
}

/// A chunk that arrives waits under its index, in place of one that came before it, and all that waits
/// besides it still does.
pub proof fn law_arrived_chunk_waits(m: Reception, index: u32, piece: Piece, now: u64, other: u32)
    ensures
        ({
            let a = stored(m, index, piece, now);
            &&& a.pending.contains_key(index) && a.pending[index] == piece
            &&& other != index ==> a.pending.contains_key(other) == m.pending.contains_key(other)
            &&& other != index && m.pending.contains_key(other) ==> a.pending[other]
                == m.pending[other]
            &&& a.last_activity == now
            &&& (Reception { pending: m.pending, last_activity: m.last_activity, ..a }) == m
        }),
{
}

/// The chunk that is handed out is the one that the file goes on with. It waits no more, its bytes are
/// hashed behind all before, and it is not written yet.
pub proof fn law_handed_out_chunk_is_hashed(m: Reception, other: u32)
    requires
        m.open,
        m.pending.contains_key(m.next),
    ensures
        ready(m),
        ({
            let a = taken(m);
            let data = m.pending[m.next].data;
            &&& !a.pending.contains_key(m.next)
            &&& other != m.next ==> a.pending.contains_key(other) == m.pending.contains_key(other)
            &&& other != m.next && m.pending.contains_key(other) ==> a.pending[other]
                == m.pending[other]
            &&& a.hashed.len() == m.hashed.len() + data.len()
            &&& a.hashed.take(m.hashed.len() as int) == m.hashed
            &&& a.hashed.skip(m.hashed.len() as int) == data
            &&& (Reception { pending: m.pending, hashed: m.hashed, ..a }) == m
        }),
{
    let a = taken(m);
    assert(a.hashed.take(m.hashed.len() as int) =~= m.hashed);
    assert(a.hashed.skip(m.hashed.len() as int) =~= m.pending[m.next].data);
}

/// Nothing is handed out where the file is not open, or the chunk that it goes on with has not arrived.
pub proof fn law_nothing_is_handed_out_too_early(m: Reception)
    ensures
        ready(m) ==> m.open && m.pending.contains_key(m.next),
        !m.open ==> !ready(m),
        !m.pending.contains_key(m.next) ==> !ready(m),
{
}

/// A chunk that was written is counted, and the next index is awaited. The file ends with it exactly if it
/// is marked as the last or makes the number of chunks full; then nothing waits any more. It is complete
/// exactly if the number is full. The progress is the share of the chunks, in percent.
pub proof fn law_written_chunk_counts(m: Reception, is_last: bool)
    requires
        consistent(m),
        m.open,
        m.written < u32::MAX,
    ensures
        ends(m, is_last) <==> is_last || m.written + 1 == m.total,
        ({
            let a = wrote(m, is_last);
            &&& a.written == m.written + 1
            &&& a.next == m.next + 1
            &&& a.open <==> !is_last && m.written + 1 != m.total
            &&& a.open ==> a.pending == m.pending
            &&& !a.open ==> forall|i: u32| !#[trigger] a.pending.contains_key(i)
            &&& complete(a) <==> m.written + 1 == m.total
            &&& m.total == 0 ==> a.progress == 0
            &&& m.total > 0 ==> a.progress * m.total <= 100 * (m.written + 1) <= (a.progress + 1)
                * m.total
            &&& m.written + 1 == m.total ==> a.progress == 100
            &&& a.progress == next_progress(m)
            &&& (Reception {
                open: m.open,
                written: m.written,
                next: m.next,
                pending: m.pending,
                progress: m.progress,
                ..a
            }) == m
        }),
{
    if m.total > 0 {
        crate::rounding::law_percentage((m.written + 1) as nat, m.total as nat);
        if m.written + 1 == m.total {
            crate::rounding::law_all_is_hundred_percent(m.total as nat);
        }
    }
}

/// A file is complete exactly if it has chunks, all of them are written, and it is closed.
pub proof fn law_complete(m: Reception)
    ensures
        complete(m) <==> !m.open && m.total > 0 && m.written == m.total,
{
}

/// A file that is given up is closed, nothing waits for it, and what was written stays as it is. Asking
/// again, and marking the time, change the count and the time alone.
pub proof fn law_giving_up_and_asking(m: Reception, now: u64)
    requires
        m.rounds < u32::MAX,
    ensures
        !given_up(m).open,
        forall|i: u32| !#[trigger] given_up(m).pending.contains_key(i),
        (Reception { open: m.open, pending: m.pending, ..given_up(m) }) == m,
        asked_again(m).rounds == m.rounds + 1,
        (Reception { rounds: m.rounds, ..asked_again(m) }) == m,
        active(m, now).last_activity == now,
        (Reception { last_activity: m.last_activity, ..active(m, now) }) == m,
{
}

/// A receiver that holds other bytes than the sender, with another digest, is never taken for one that has
/// the file: the digest that it tells is not that of the sender.
pub proof fn law_other_bytes_are_noticed(held: Seq<u8>, file: Seq<u8>)
    requires
        ripemd160(held) != ripemd160(file),
    ensures
        hash_verdict(hex_text(ripemd160(held)), hex_text(ripemd160(file))) == Outcome::Mismatch,
{
    if hex_text(ripemd160(held)) == hex_text(ripemd160(file)) {
        crate::text_laws::law_hexadecimal_differs(ripemd160(held), ripemd160(file));
    }
}

/// What a state stands for is what it holds.
pub proof fn law_state_is_seen_whole(state: ReceiveState, index: u32)
    ensures
        state@.open == state.file_open,
        state@.name == state.current_file_name@,
        state@.size == state.current_file_size,
        state@.total == state.total_chunks,
        state@.next == state.next_expected_index,
        state@.written == state.chunks_written,
        state@.progress == state.last_progress,
        state@.last_activity == state.last_activity,
        state@.rounds == state.resend_rounds,
        state@.hashed == state.hasher@,
        state@.sender_id == state.sender_id@,
        state@.sender_address is Some <==> state.sender_address is Some,
        state.sender_address matches Some(address) ==> state@.sender_address == Some(address@),
        state@.pending.contains_key(index) <==> state.received_chunks@.contains_key(index),
        state.received_chunks@.contains_key(index) ==> state@.pending[index].data
            == state.received_chunks@[index].data@ && state@.pending[index].is_last
            == state.received_chunks@[index].is_last,
{
}

/// The chunk that the file goes on with can be handed out as long as all that is hashed stays below 2^61
/// bytes; where none is to be handed out, nothing stands in the way.
pub proof fn law_room(m: Reception)
    ensures
        crate::receive::room(m) <==> !m.open || !m.pending.contains_key(m.next) || m.hashed.len()
            + m.pending[m.next].data.len() < 0x2000_0000_0000_0000,
{
}

} // verus!
