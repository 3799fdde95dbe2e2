//! The state of the chat server and the three steps of its loop: admit new
//! clients, read what the clients sent, hand out what is to be broadcast.
//! The steps decide; whoever owns the sockets reads and writes.

use crate::connection::{command, command_text, handshake, Connection, ConnectionView};
use crate::cursor::after;
use crate::error::{IoFailure, ReadError};
use crate::frame::{encoding, lemma_view_of_array, views_of, Frame, FrameView};
use crate::rw::{read_outcome, ReadOutcome, WriteFrame};
use std::collections::VecDeque;
use vstd::prelude::*;

verus! {

/// Turns "nothing there yet" from a failure into the absence of a value.
pub fn nonblocking<T>(res: Result<T, IoFailure>) -> (r: Result<Option<T>, IoFailure>)
    ensures
        r == match res {
            Ok(value) => Ok::<Option<T>, IoFailure>(Some(value)),
            Err(IoFailure::WouldBlock) => Ok(None),
            Err(e) => Err(e),
        },
{
    match res {
        Ok(value) => Ok(Some(value)),
        Err(IoFailure::WouldBlock) => Ok(None),
        Err(e) => Err(e),
    }
}

/// A stream that was just accepted, and the outcome of the one read of it.
pub struct Arrival<T> {
    pub stream: T,
    pub first_read: Result<Vec<u8>, IoFailure>,
}

/// An arrival, apart from how its bytes are kept.
pub struct ArrivalView<T> {
    pub stream: T,
    pub first_read: Result<Seq<u8>, IoFailure>,
}

impl<T> View for Arrival<T> {
    type V = ArrivalView<T>;

    open spec fn view(&self) -> ArrivalView<T> {
        ArrivalView {
            stream: self.stream,
            first_read: match self.first_read {
                Ok(bytes) => Ok(bytes@),
                Err(e) => Err(e),
            },
        }
    }
}

/// The clients that have joined, the messages that wait to be sent to all of
/// them, and the number that the next client gets.
pub struct Server<T> {
    pub lst: Vec<Connection<T>>,
    pub messages: VecDeque<Vec<u8>>,
    pub next_id: u32,
}

/// The state of the server, apart from how it is kept.
pub struct ServerView<T> {
    /// The clients, in the order in which they are read and written.
    pub live: Seq<ConnectionView<T>>,
    /// The encoded messages that wait, the oldest first.
    pub queue: Seq<Seq<u8>>,
    /// The number that the next client gets.
    pub next_id: u32,
}

/// What each of `lst` is, in order.
pub open spec fn connection_views<T>(lst: Seq<Connection<T>>) -> Seq<ConnectionView<T>> {
    Seq::new(lst.len(), |i: int| lst[i]@)
}

/// What each of `arrivals` is, in order.
pub open spec fn arrival_views<T>(arrivals: Seq<Arrival<T>>) -> Seq<ArrivalView<T>> {
    Seq::new(arrivals.len(), |i: int| arrivals[i]@)
}

/// The bytes of each of `messages`, in order.
pub open spec fn contents(messages: Seq<Vec<u8>>) -> Seq<Seq<u8>> {
    Seq::new(messages.len(), |i: int| messages[i]@)
}

impl<T> View for Server<T> {
    type V = ServerView<T>;

    open spec fn view(&self) -> ServerView<T> {
        ServerView {
            live: connection_views(self.lst@),
            queue: contents(self.messages@),
            next_id: self.next_id,
        }
    }
}

/// A command of one word about one name: `[word, name]`.
pub open spec fn notice(word: Seq<char>, name: Seq<char>) -> FrameView {
    FrameView::Array(seq![FrameView::Simple(word), FrameView::Simple(name)])
}

/// What all clients are told when `name` has joined.
pub open spec fn join_notice(name: Seq<char>) -> FrameView {
    notice("JOIN"@, name)
}

/// What all clients are told when `name` has left.
pub open spec fn leave_notice(name: Seq<char>) -> FrameView {
    notice("LEAVE"@, name)
}

/// What all clients are told when `name` has said `text`:
/// `[MSG, [name, ": ", text]]`.
pub open spec fn relay_notice(name: Seq<char>, text: Seq<char>) -> FrameView {
    FrameView::Array(
        seq![
            FrameView::Simple("MSG"@),
            FrameView::Array(
                seq![FrameView::Simple(name), FrameView::Simple(": "@), FrameView::Simple(text)],
            ),
        ],
    )
}

/// The sequence of what is there, if anything is.
pub open spec fn optional<A>(o: Option<A>) -> Seq<A> {
    match o {
        Some(a) => seq![a],
        None => Seq::empty(),
    }
}

/// What one read of a client leads to.
pub struct Turn<T> {
    /// The client afterwards, unless it is removed.
    pub stays: Option<ConnectionView<T>>,
    /// The message that is queued for all clients, if one is.
    pub notice: Option<Seq<u8>>,
}

/// The outcome of reading the client `c` once.
///
/// A whole frame is taken from its buffer, and relayed where it is a `MSG`
/// command. A client with no whole frame yet stays as it is. A client whose
/// stream failed, or whose bytes cannot be a frame, is removed, and its
/// leaving is announced.
pub open spec fn turn<T>(c: ConnectionView<T>) -> Turn<T> {
    match read_outcome(c.fault, c.buffered) {
        ReadOutcome::Frame(v, n) => Turn {
            stays: Some(
                ConnectionView {
                    stream: c.stream,
                    name: c.name,
                    id: c.id,
                    buffered: after(c.buffered, n),
                    fault: c.fault,
                },
            ),
            notice: match command_text(v, "MSG"@) {
                Some(text) => Some(encoding(relay_notice(c.name, text))),
                None => None,
            },
        },
        ReadOutcome::Pending => Turn { stays: Some(c), notice: None },
        ReadOutcome::Failed(failure) => if failure == IoFailure::WouldBlock {
            Turn { stays: Some(c), notice: None }
        } else {
            Turn { stays: None, notice: Some(encoding(leave_notice(c.name))) }
        },
        ReadOutcome::Malformed(_) => Turn {
            stays: None,
            notice: Some(encoding(leave_notice(c.name))),
        },
    }
}

/// The clients that stay after each of `live` was read once, in their old
/// order.
pub open spec fn remaining_after_reads<T>(live: Seq<ConnectionView<T>>) -> Seq<ConnectionView<T>>
    decreases live.len(),
{
    if live.len() == 0 {
        Seq::empty()
    } else {
        remaining_after_reads(live.drop_last()) + optional(turn(live.last()).stays)
    }
}

/// The messages that reading each of `live` once queues, in the order of the
/// clients.
pub open spec fn notices_of_reads<T>(live: Seq<ConnectionView<T>>) -> Seq<Seq<u8>>
    decreases live.len(),
{
    if live.len() == 0 {
        Seq::empty()
    } else {
        notices_of_reads(live.drop_last()) + optional(turn(live.last()).notice)
    }
}

/// The server after every client was read once.
pub open spec fn after_reads<T>(s: ServerView<T>) -> ServerView<T> {
    ServerView {
        live: remaining_after_reads(s.live),
        queue: s.queue + notices_of_reads(s.live),
        next_id: s.next_id,
    }
}

/// Whether the server in state `s` admits the arrival `a`: its handshake
/// succeeds, and a number is left to give it.
pub open spec fn admits<T>(s: ServerView<T>, a: ArrivalView<T>) -> bool {
    handshake(a.first_read) is Some && s.next_id < u32::MAX
}

/// The server after one arrival: a client that is admitted joins at the end
/// under the next number, and its joining is announced; any other arrival
/// changes nothing.
pub open spec fn after_arrival<T>(s: ServerView<T>, a: ArrivalView<T>) -> ServerView<T> {
    if admits(s, a) {
        let (name, rest) = handshake(a.first_read)->Some_0;
        ServerView {
            live: s.live.push(
                ConnectionView { stream: a.stream, name, id: s.next_id, buffered: rest, fault: None },
            ),
            queue: s.queue.push(encoding(join_notice(name))),
            next_id: (s.next_id + 1) as u32,
        }
    } else {
        s
    }
}

/// The server after `arrivals`, taken in order.
pub open spec fn after_arrivals<T>(s: ServerView<T>, arrivals: Seq<ArrivalView<T>>) -> ServerView<
    T,
>
    decreases arrivals.len(),
{
    if arrivals.len() == 0 {
        s
    } else {
        after_arrival(after_arrivals(s, arrivals.drop_last()), arrivals.last())
    }
}

/// Which of `arrivals`, taken in order, the server admits.
pub open spec fn admissions<T>(s: ServerView<T>, arrivals: Seq<ArrivalView<T>>) -> Seq<bool>
    decreases arrivals.len(),
{
    if arrivals.len() == 0 {
        Seq::empty()
    } else {
        admissions(s, arrivals.drop_last()).push(
            admits(after_arrivals(s, arrivals.drop_last()), arrivals.last()),
        )
    }
}

/// What one read of a client came to, for whoever keeps a record.
#[derive(Debug, Clone, Copy, PartialEq, Eq, Structural)]
pub enum Reading {
    /// A `MSG` command was relayed.
    Relayed,
    /// A frame that is no `MSG` command was passed over.
    PassedOver,
    /// No whole frame has arrived yet.
    Pending,
    /// The stream was exhausted, and the client was removed.
    Left,
    /// The stream failed otherwise, or its bytes cannot be a frame, and the
    /// client was removed.
    Lost,
}

/// What one read of the client `c` comes to.
pub open spec fn reading_of<T>(c: ConnectionView<T>) -> Reading {
    match read_outcome(c.fault, c.buffered) {
        ReadOutcome::Frame(v, _) => if command_text(v, "MSG"@) is Some {
            Reading::Relayed
        } else {
            Reading::PassedOver
        },
        ReadOutcome::Pending => Reading::Pending,
        ReadOutcome::Failed(failure) => match failure {
            IoFailure::WouldBlock => Reading::Pending,
            IoFailure::WriteZero => Reading::Left,
            IoFailure::Other => Reading::Lost,
        },
        ReadOutcome::Malformed(_) => Reading::Lost,
    }
}

/// What one read of each of `live` comes to, in order.
pub open spec fn readings<T>(live: Seq<ConnectionView<T>>) -> Seq<Reading> {
    Seq::new(live.len(), |i: int| reading_of(live[i]))
}

/// The frame `[word, name]`.
fn notice_frame<'a>(word: &'a str, name: &'a str) -> (f: Frame<'a>)
    ensures
        f@ == notice(word@, name@),
{
    let mut items: Vec<Frame<'a>> = Vec::new();
    items.push(Frame::Simple(word));
    items.push(Frame::Simple(name));
    proof {
        lemma_view_of_array(items);
        assert(views_of(items@) =~= seq![FrameView::Simple(word@), FrameView::Simple(name@)]);
    }
    Frame::Vecs(items)
}

/// The frame `[MSG, [name, ": ", text]]`.
fn relay_frame<'a>(name: &'a str, text: &'a str) -> (f: Frame<'a>)
    ensures
        f@ == relay_notice(name@, text@),
{
    let mut said: Vec<Frame<'a>> = Vec::new();
    said.push(Frame::Simple(name));
    said.push(Frame::Simple(": "));
    said.push(Frame::Simple(text));
    proof {
        lemma_view_of_array(said);
        assert(views_of(said@) =~= seq![
            FrameView::Simple(name@),
            FrameView::Simple(": "@),
            FrameView::Simple(text@),
        ]);
    }
    let inner = Frame::Vecs(said);
    let mut items: Vec<Frame<'a>> = Vec::new();
    items.push(Frame::Simple("MSG"));
    items.push(inner);
    proof {
        lemma_view_of_array(items);
        assert(views_of(items@) =~= seq![FrameView::Simple("MSG"@), inner@]);
    }
    Frame::Vecs(items)
}

impl<T> Server<T> {
    /// A server with no client and nothing to send.
    pub fn new() -> (s: Server<T>)
        ensures
            s@.live == Seq::<ConnectionView<T>>::empty(),
            s@.queue == Seq::<Seq<u8>>::empty(),
            s@.next_id == 0,
    {
        let s = Server { lst: Vec::new(), messages: VecDeque::new(), next_id: 0 };
        assert(s@.live =~= Seq::<ConnectionView<T>>::empty());
        assert(s@.queue =~= Seq::<Seq<u8>>::empty());
        s
    }

    /// Queues the wire form of `fr` behind the messages that wait.
    pub fn enqueue_message(&mut self, fr: &Frame<'_>)
        ensures
            final(self)@.live == old(self)@.live,
            final(self)@.queue == old(self)@.queue.push(encoding(fr@)),
            final(self)@.next_id == old(self)@.next_id,
    {
        let mut bytes: Vec<u8> = Vec::new();
        let _ = bytes.write_frame(fr);
        assert(bytes@ =~= encoding(fr@));
        self.messages.push_back(bytes);
        assert(final(self)@.queue =~= old(self)@.queue.push(encoding(fr@)));
    }

    /// Whether `e` says no more than that nothing is there yet.
    pub fn is_pending(e: &ReadError) -> (pending: bool)
        ensures
            pending == (*e matches ReadError::Io(IoFailure::WouldBlock)),
    {
        match e {
            ReadError::Parse(_) => false,
            ReadError::Io(failure) => match failure {
                IoFailure::WouldBlock => true,
                _ => false,
            },
        }
    }

    /// Whether `e` says that the stream is exhausted.
    pub fn is_exhausted(e: &ReadError) -> (exhausted: bool)
        ensures
            exhausted == (*e matches ReadError::Io(IoFailure::WriteZero)),
    {
        match e {
            ReadError::Parse(_) => false,
            ReadError::Io(failure) => match failure {
                IoFailure::WriteZero => true,
                _ => false,
            },
        }
    }

    /// Acts on a frame that the client `name` sent: a `MSG` command is
    /// queued for all clients under the sender's name; any other frame is
    /// passed over. The answer says whether the frame was relayed.
    pub fn handle_frame(&mut self, name: &str, fr: &Frame<'_>) -> (relayed: bool)
        ensures
            relayed == (command_text(fr@, "MSG"@) is Some),
            final(self)@.live == old(self)@.live,
            final(self)@.queue == old(self)@.queue + optional(
                match command_text(fr@, "MSG"@) {
                    Some(text) => Some(encoding(relay_notice(name@, text))),
                    None => None,
                },
            ),
            final(self)@.next_id == old(self)@.next_id,
    {
        match command(fr, "MSG") {
            Some(text) => {
                let relay = relay_frame(name, text);
                self.enqueue_message(&relay);
                assert(final(self)@.queue =~= old(self)@.queue + seq![
                    encoding(relay_notice(name@, text@)),
                ]);
                true
            },
            None => {
                assert(old(self)@.queue + Seq::<Seq<u8>>::empty() =~= old(self)@.queue);
                false
            },
        }
    }

    /// Hands out the messages that wait, the oldest first, and leaves none
    /// waiting. Each is to be written, as it is, to every client in the order
    /// of `lst`.
    pub fn broadcast_messages(&mut self) -> (out: Vec<Vec<u8>>)
        ensures
            contents(out@) == old(self)@.queue,
            final(self)@.live == old(self)@.live,
            final(self)@.queue == Seq::<Seq<u8>>::empty(),
            final(self)@.next_id == old(self)@.next_id,
    {
        let mut out: Vec<Vec<u8>> = Vec::new();
        let ghost all = self.messages@;
        while self.messages.len() > 0
            invariant
                self.lst == old(self).lst,
                self.next_id == old(self).next_id,
                all == old(self).messages@,
                out@ + self.messages@ == all,
            decreases self.messages.len(),
        {
            match self.messages.pop_front() {
                Some(message) => {
                    out.push(message);
                    assert(out@ + self.messages@ =~= all);
                },
                None => {},
            }
        }
        assert(out@ =~= all);
        assert(contents(self.messages@) =~= Seq::<Seq<u8>>::empty());
        out
    }

    /// Reads the client `conn` once and acts on what it sent.
    fn read_one(&mut self, conn: &mut Connection<T>) -> (reading: Reading)
        ensures
            reading == reading_of(old(conn)@),
            (reading == Reading::Left || reading == Reading::Lost) <==> turn(old(conn)@).stays
                is None,
            turn(old(conn)@).stays matches Some(kept) ==> final(conn)@ == kept,
            final(self)@.live == old(self)@.live,
            final(self)@.queue == old(self)@.queue + optional(turn(old(conn)@).notice),
            final(self).next_id == old(self).next_id,
    {
        match conn.reader.read_frame() {
            Ok(guard) => {
                let frame = guard.frame();
                if self.handle_frame(conn.name.as_str(), &frame) {
                    Reading::Relayed
                } else {
                    Reading::PassedOver
                }
            },
            Err(e) => {
                if Self::is_pending(&e) {
                    proof {
                        assert(self@.queue + Seq::<Seq<u8>>::empty() =~= self@.queue);
                    }
                    Reading::Pending
                } else {
                    let farewell = notice_frame("LEAVE", conn.name.as_str());
                    self.enqueue_message(&farewell);
                    proof {
                        assert(self@.queue =~= old(self)@.queue + seq![
                            encoding(leave_notice(old(conn)@.name)),
                        ]);
                    }
                    if Self::is_exhausted(&e) {
                        Reading::Left
                    } else {
                        Reading::Lost
                    }
                }
            },
        }
    }

    /// Reads every client once, in the order of `lst`.
    ///
    /// A whole frame is taken from the client's buffer and acted on. A
    /// client with no whole frame yet stays as it is. A client whose stream
    /// failed, or whose bytes cannot be a frame, is removed, and its leaving
    /// is queued for the others. What one client sent has no part in what
    /// becomes of another. The answer holds, for each client that was read,
    /// what its read came to.
    pub fn read_frames(&mut self) -> (report: Vec<Reading>)
        ensures
            report@ == readings(old(self)@.live),
            final(self)@.live == after_reads(old(self)@).live,
            final(self)@.queue == after_reads(old(self)@).queue,
            final(self)@.next_id == after_reads(old(self)@).next_id,
    {
        let mut connections: Vec<Connection<T>> = Vec::new();
        core::mem::swap(&mut self.lst, &mut connections);
        let ghost all = connection_views(connections@);
        let ghost queued = self@.queue;
        let ghost mut seen: int = 0;
        let mut report: Vec<Reading> = Vec::new();
        let mut i: usize = 0;
        proof {
            assert(all =~= old(self)@.live);
            assert(all.take(0) =~= Seq::<ConnectionView<T>>::empty());
            assert(connection_views(connections@).take(0) =~= remaining_after_reads(all.take(0)));
            assert(connection_views(connections@).skip(0) =~= all.skip(0));
            assert(queued + notices_of_reads(all.take(0)) =~= queued);
        }
        while i < connections.len()
            invariant
                0 <= i <= connections.len(),
                0 <= seen <= all.len(),
                connections.len() - i == all.len() - seen,
                self.next_id == old(self).next_id,
                all == old(self)@.live,
                queued == old(self)@.queue,
                connection_views(connections@).take(i as int) == remaining_after_reads(
                    all.take(seen),
                ),
                connection_views(connections@).skip(i as int) == all.skip(seen),
                self@.queue == queued + notices_of_reads(all.take(seen)),
                report@.len() == seen,
                forall|k: int| 0 <= k < seen ==> report@[k] == reading_of(#[trigger] all[k]),
            decreases connections.len() - i,
        {
            let ghost before = connection_views(connections@);
            let ghost c = all[seen];
            proof {
                assert(before[i as int] == before.skip(i as int)[0]);
                assert(all.skip(seen)[0] == c);
                assert(all.take(seen + 1).drop_last() =~= all.take(seen));
                assert(all.take(seen + 1).last() == c);
            }
            let conn = &mut connections[i];
            let reading = self.read_one(conn);
            report.push(reading);
            let stays = match reading {
                Reading::Left => false,
                Reading::Lost => false,
                _ => true,
            };
            if stays {
                proof {
                    let now = connection_views(connections@);
                    let kept = turn(c).stays->Some_0;
                    assert(now[i as int] == kept);
                    assert(now.take(i + 1) =~= before.take(i as int).push(kept));
                    assert(now.skip(i + 1) =~= before.skip(i as int).skip(1));
                    assert(all.skip(seen).skip(1) =~= all.skip(seen + 1));
                    assert(before.take(i as int).push(kept) =~= before.take(i as int) + seq![kept]);
                }
                i += 1;
            } else {
                let _gone = connections.remove(i);
                proof {
                    let now = connection_views(connections@);
                    assert(now.take(i as int) =~= before.take(i as int));
                    assert(now.skip(i as int) =~= before.skip(i as int).skip(1));
                    assert(all.skip(seen).skip(1) =~= all.skip(seen + 1));
                    assert(before.take(i as int) + Seq::<ConnectionView<T>>::empty()
                        =~= before.take(i as int));
                }
            }
            proof {
                seen = seen + 1;
            }
        }
        proof {
            assert(all.take(seen) =~= all);
            assert(connection_views(connections@).take(i as int) =~= connection_views(
                connections@,
            ));
        }
        self.lst = connections;
        assert(report@ =~= readings(all));
        report
    }

    /// Takes in the streams that were accepted, in the order of their
    /// arrival.
    ///
    /// Each arrival whose first bytes are a whole join request becomes a
    /// client at the end of `lst`, under the next number, and its joining is
    /// queued for all clients. Any other arrival is dropped and leaves no
    /// trace. Once the numbers have run out no further client is admitted,
    /// so that no number is ever given twice. The answer says, for each
    /// arrival, whether it was admitted.
    pub fn accept_clients(&mut self, arrivals: Vec<Arrival<T>>) -> (admitted: Vec<bool>)
        ensures
            admitted@ == admissions(old(self)@, arrival_views(arrivals@)),
            final(self)@.live == after_arrivals(old(self)@, arrival_views(arrivals@)).live,
            final(self)@.queue == after_arrivals(old(self)@, arrival_views(arrivals@)).queue,
            final(self)@.next_id == after_arrivals(old(self)@, arrival_views(arrivals@)).next_id,
    {
        let ghost all = arrival_views(arrivals@);
        let ghost start = old(self)@;
        let mut admitted: Vec<bool> = Vec::new();
        proof {
            assert(all.take(0) =~= Seq::<ArrivalView<T>>::empty());
        }
        for arrival in it: arrivals
            invariant
                all == arrival_views(it.seq()),
                start == old(self)@,
                admitted@ == admissions(start, all.take(it.index() as int)),
                self@.live == after_arrivals(start, all.take(it.index() as int)).live,
                self@.queue == after_arrivals(start, all.take(it.index() as int)).queue,
                self@.next_id == after_arrivals(start, all.take(it.index() as int)).next_id,
        {
            let ghost k = it.index() as int;
            let ghost a = all[k];
            let ghost before = self@;
            proof {
                assert(a == arrival@);
                assert(all.take(k + 1).drop_last() =~= all.take(k));
                assert(all.take(k + 1).last() == a);
            }
            let Arrival { stream, first_read } = arrival;
            let made = if self.next_id == u32::MAX {
                None
            } else {
                match &first_read {
                    Ok(bytes) => Connection::establish(stream, self.next_id, Ok(bytes.as_slice())),
                    Err(e) => Connection::establish(stream, self.next_id, Err(*e)),
                }
            };
            admitted.push(made.is_some());
            match made {
                Some(connection) => {
                    let welcome = notice_frame("JOIN", connection.name.as_str());
                    self.enqueue_message(&welcome);
                    let ghost joined = connection@;
                    self.lst.push(connection);
                    self.next_id = self.next_id + 1;
                    proof {
                        assert(self@.live =~= before.live.push(joined));
                    }
                },
                None => {},
            }
        }
        proof {
            assert(all.take(all.len() as int) =~= all);
        }
        admitted
    }
}

} // verus!
