//! What holds of the server's steps in every state: who is told what, who
//! stays, and that a client's number is never given twice.

use crate::codec_laws::{
    encodable, lemma_encoding_decodes, lemma_text_without_cr_is_line_safe,
    lemma_verdict_is_final, line_safe,
};
use crate::connection::{handshake, join_name, ConnectionView};
use crate::cursor::after;
use crate::error::IoFailure;
use crate::frame::{encoding, parse_frame, FrameView};
use crate::rw::{read_outcome, ReadOutcome};
use crate::server::{
    admits, after_arrival, after_arrivals, after_reads, leave_notice, notice, optional,
    reading_of, relay_notice, remaining_after_reads, turn, ArrivalView, Reading, ServerView,
};
use vstd::prelude::*;
use vstd::utf8::encode_utf8;

verus! {

/// A command word made of plain letters can stand in a line.
pub proof fn lemma_words_are_line_safe()
    ensures
        line_safe(encode_utf8("JOIN"@)),
        line_safe(encode_utf8("MSG"@)),
        line_safe(encode_utf8("LEAVE"@)),
{
    reveal_strlit("JOIN");
    reveal_strlit("MSG");
    reveal_strlit("LEAVE");
    lemma_text_without_cr_is_line_safe("JOIN"@);
    lemma_text_without_cr_is_line_safe("MSG"@);
    lemma_text_without_cr_is_line_safe("LEAVE"@);
}

/// What a reader finds in its buffer is not changed by bytes that arrive
/// later, unless it finds that no whole frame has arrived yet.
pub proof fn lemma_later_bytes_keep_the_outcome(
    fault: Option<IoFailure>,
    buffered: Seq<u8>,
    more: Seq<u8>,
)
    requires
        read_outcome(fault, buffered) != ReadOutcome::Pending,
    ensures
        read_outcome(fault, buffered + more) == read_outcome(fault, buffered),
{
    if fault is None {
        lemma_verdict_is_final(buffered, more);
    }
}

/// A client whose buffer starts with a `MSG` command has that text relayed
/// to all under its name, exactly once; it stays, and its buffer then starts
/// after the command.
pub proof fn lemma_sent_message_is_relayed<T>(c: ConnectionView<T>, text: Seq<char>, rest: Seq<u8>)
    requires
        c.fault is None,
        line_safe(encode_utf8(text)),
        c.buffered == encoding(notice("MSG"@, text)) + rest,
    ensures
        turn(c).notice == Some(encoding(relay_notice(c.name, text))),
        turn(c).stays == Some(
            ConnectionView {
                stream: c.stream,
                name: c.name,
                id: c.id,
                buffered: rest,
                fault: c.fault,
            },
        ),
{
    let said = notice("MSG"@, text);
    lemma_words_are_line_safe();
    assert(encodable(said)) by {
        let items = said->Array_0;
        assert forall|i: int| 0 <= i < items.len() implies encodable(#[trigger] items[i]) by {
            if i == 0 {
                assert(items[0] == FrameView::Simple("MSG"@));
            } else {
                assert(items[1] == FrameView::Simple(text));
            }
        }
    }
    lemma_encoding_decodes(said, rest);
    assert(after(c.buffered, encoding(said).len()) =~= rest);
}

/// A client whose stream failed, or whose buffered bytes cannot be a frame,
/// is removed, and exactly its leaving is queued.
pub proof fn lemma_failed_client_leaves<T>(c: ConnectionView<T>)
    requires
        match read_outcome(c.fault, c.buffered) {
            ReadOutcome::Failed(failure) => failure != IoFailure::WouldBlock,
            ReadOutcome::Malformed(_) => true,
            _ => false,
        },
    ensures
        turn(c).stays is None,
        turn(c).notice == Some(encoding(leave_notice(c.name))),
{
}

/// A client is removed exactly where its read is recorded as `Left` or
/// `Lost`, and a message is relayed exactly where it is recorded as
/// `Relayed`.
pub proof fn lemma_reading_tells_the_turn<T>(c: ConnectionView<T>)
    ensures
        turn(c).stays is None <==> (reading_of(c) == Reading::Left || reading_of(c)
            == Reading::Lost),
        reading_of(c) == Reading::Relayed ==> turn(c).notice is Some && turn(c).stays is Some,
        (reading_of(c) == Reading::PassedOver || reading_of(c) == Reading::Pending) ==> turn(
            c,
        ).notice is None,
{
}

/// Every client that stays after the reads was a client before, stays by its
/// own turn, and keeps its place among those that stay.
pub proof fn lemma_who_stays<T>(live: Seq<ConnectionView<T>>, k: int) -> (j: int)
    requires
        0 <= k < remaining_after_reads(live).len(),
    ensures
        0 <= j < live.len(),
        turn(live[j]).stays == Some(remaining_after_reads(live)[k]),
        remaining_after_reads(live)[k].id == live[j].id,
        remaining_after_reads(live.take(j)).len() == k,
    decreases live.len(),
{
    let before = remaining_after_reads(live.drop_last());
    let last = optional(turn(live.last()).stays);
    if k < before.len() {
        let j = lemma_who_stays(live.drop_last(), k);
        assert(live.drop_last()[j] == live[j]);
        assert(live.take(j) =~= live.drop_last().take(j));
        j
    } else {
        let j = live.len() - 1;
        assert(live.take(j) =~= live.drop_last());
        j
    }
}

/// The numbers of the clients rise along the list and lie below the number
/// that the next client gets: no number is held twice, and none will be given
/// again.
pub open spec fn numbers_in_order<T>(s: ServerView<T>) -> bool {
    &&& forall|i: int, j: int| 0 <= i < j < s.live.len() ==> s.live[i].id < s.live[j].id
    &&& forall|i: int| 0 <= i < s.live.len() ==> s.live[i].id < s.next_id
}

/// A client that was removed by the reads is not among those that stay, so
/// that no later read can announce its leaving again.
pub proof fn lemma_removed_client_is_gone<T>(s: ServerView<T>, j: int)
    requires
        numbers_in_order(s),
        0 <= j < s.live.len(),
        turn(s.live[j]).stays is None,
    ensures
        forall|k: int|
            0 <= k < after_reads(s).live.len() ==> (#[trigger] after_reads(s).live[k]).id
                != s.live[j].id,
{
    assert forall|k: int| 0 <= k < after_reads(s).live.len() implies (#[trigger] after_reads(
        s,
    ).live[k]).id != s.live[j].id by {
        let from = lemma_who_stays(s.live, k);
        if from < j {
            assert(s.live[from].id < s.live[j].id);
        } else if j < from {
            assert(s.live[j].id < s.live[from].id);
        }
    }
}

/// Reading the clients keeps their numbers in order.
pub proof fn lemma_reads_keep_numbers_in_order<T>(s: ServerView<T>)
    requires
        numbers_in_order(s),
    ensures
        numbers_in_order(after_reads(s)),
{
    let t = after_reads(s);
    assert forall|a: int, b: int| 0 <= a < b < t.live.len() implies t.live[a].id
        < t.live[b].id by {
        let ja = lemma_who_stays(s.live, a);
        let jb = lemma_who_stays(s.live, b);
        if ja >= jb {
            lemma_stays_grow(s.live, jb, ja);
        }
        assert(s.live[ja].id < s.live[jb].id);
    }
    assert forall|a: int| 0 <= a < t.live.len() implies t.live[a].id < t.next_id by {
        let ja = lemma_who_stays(s.live, a);
    }
}

/// Of a longer run of clients at least as many stay as of a shorter one.
pub proof fn lemma_stays_grow<T>(live: Seq<ConnectionView<T>>, a: int, b: int)
    requires
        0 <= a <= b <= live.len(),
    ensures
        remaining_after_reads(live.take(a)).len() <= remaining_after_reads(live.take(b)).len(),
    decreases b - a,
{
    if a < b {
        lemma_stays_grow(live, a, b - 1);
        assert(live.take(b).drop_last() =~= live.take(b - 1));
    }
}

/// An arrival whose handshake fails is not admitted, whatever the state of
/// the server, and leaves the server as it was: no client is added and
/// nothing is queued.
pub proof fn lemma_refused_arrival_changes_nothing<T>(s: ServerView<T>, a: ArrivalView<T>)
    requires
        handshake(a.first_read) is None,
    ensures
        !admits(s, a),
        after_arrival(s, a) == s,
{
}

/// An arrival that is not admitted leaves the server as it was, and one
/// that is admitted adds exactly one client and one announcement.
pub proof fn lemma_arrival_adds_one_or_nothing<T>(s: ServerView<T>, a: ArrivalView<T>)
    ensures
        !admits(s, a) ==> after_arrival(s, a) == s,
        admits(s, a) ==> {
            &&& after_arrival(s, a).live.len() == s.live.len() + 1
            &&& after_arrival(s, a).live.last().id == s.next_id
            &&& after_arrival(s, a).queue.len() == s.queue.len() + 1
            &&& after_arrival(s, a).next_id == s.next_id + 1
        },
{
}

/// Only an array of exactly two simple strings, the first of them `JOIN`, is
/// a join request.
pub proof fn lemma_join_request_shape(v: FrameView)
    ensures
        join_name(v) is Some <==> (v matches FrameView::Array(items) && items.len() == 2
            && items[0] == FrameView::Simple("JOIN"@) && items[1] is Simple),
{
}

/// First bytes that hold a whole frame other than a join request are refused.
pub proof fn lemma_other_frame_is_refused(bytes: Seq<u8>)
    requires
        parse_frame(bytes) matches Ok((v, _)) && join_name(v) is None,
    ensures
        handshake(Ok(bytes)) is None,
{
}

/// Arrivals keep the numbers in order, and the clients that were there stay
/// where they were.
pub proof fn lemma_arrivals_keep_numbers_in_order<T>(
    s: ServerView<T>,
    arrivals: Seq<ArrivalView<T>>,
)
    requires
        numbers_in_order(s),
    ensures
        numbers_in_order(after_arrivals(s, arrivals)),
        s.next_id <= after_arrivals(s, arrivals).next_id <= s.next_id + arrivals.len(),
        s.live.len() <= after_arrivals(s, arrivals).live.len(),
        forall|i: int| 0 <= i < s.live.len() ==> after_arrivals(s, arrivals).live[i] == s.live[i],
    decreases arrivals.len(),
{
    if arrivals.len() > 0 {
        lemma_arrivals_keep_numbers_in_order(s, arrivals.drop_last());
    }
}

} // verus!
