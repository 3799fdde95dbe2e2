//! Writing frames to a byte sink, and reading them from buffered bytes.

use crate::cursor::{after, Cursor, CR, LF};
use crate::decimal::{push_i64, push_u64};
use crate::error::{CursorError, IoFailure, ParseError, ParseFailure, ReadError};
use crate::frame::{
    encoding, encoding_all, lemma_encoding_all_push, lemma_parse_frame_in_bounds,
    lemma_view_of_array, parse_frame, views_of, Frame, FrameView, ARRAY, BULK, ERROR, INTEGER,
    SIMPLE,
};
use vstd::pervasive::unreached;
use vstd::prelude::*;
use vstd::slice::slice_subrange;

verus! {

/// Appends the wire form of `fr` to `out`.
fn encode_into(out: &mut Vec<u8>, fr: &Frame<'_>)
    ensures
        final(out)@ == old(out)@ + encoding(fr@),
    decreases fr,
{
    match fr {
        Frame::Simple(text) => {
            out.push(SIMPLE);
            out.extend_from_slice(text.as_bytes());
            out.push(CR);
            out.push(LF);
            assert(final(out)@ =~= old(out)@ + encoding(fr@));
        },
        Frame::Errors(text) => {
            out.push(ERROR);
            out.extend_from_slice(text.as_bytes());
            out.push(CR);
            out.push(LF);
            assert(final(out)@ =~= old(out)@ + encoding(fr@));
        },
        Frame::Integer(value) => {
            out.push(INTEGER);
            push_i64(out, *value);
            out.push(CR);
            out.push(LF);
            assert(final(out)@ =~= old(out)@ + encoding(fr@));
        },
        Frame::BulkString(bytes) => {
            out.push(BULK);
            push_u64(out, bytes.len() as u64);
            out.push(CR);
            out.push(LF);
            out.extend_from_slice(bytes);
            out.push(CR);
            out.push(LF);
            assert(final(out)@ =~= old(out)@ + encoding(fr@));
        },
        Frame::Vecs(items) => {
            out.push(ARRAY);
            push_u64(out, items.len() as u64);
            out.push(CR);
            out.push(LF);
            let ghost head = out@;
            let ghost all = views_of(items@);
            proof {
                lemma_view_of_array(*items);
                assert(all.take(0) =~= Seq::<FrameView>::empty());
                assert(head + encoding_all(all.take(0)) =~= head);
            }
            let mut i: usize = 0;
            while i < items.len()
                invariant
                    0 <= i <= items.len(),
                    all == views_of(items@),
                    out@ == head + encoding_all(all.take(i as int)),
                    decreases_to!(fr => items),
                decreases items.len() - i,
            {
                let item = &items[i];
                encode_into(out, item);
                proof {
                    let done = all.take(i as int);
                    assert(all.take(i + 1) =~= done.push(all[i as int]));
                    lemma_encoding_all_push(done, all[i as int]);
                    assert(out@ =~= head + encoding_all(all.take(i + 1)));
                }
                i += 1;
            }
            proof {
                assert(all.take(items.len() as int) =~= all);
                assert(final(out)@ =~= old(out)@ + encoding(fr@));
            }
        },
    }
}

/// A sink that takes frames in their wire form.
pub trait WriteFrame {
    /// The bytes that the sink has taken so far.
    spec fn written(&self) -> Seq<u8>;

    /// Writes the wire form of `fr`; where that succeeds, the sink has taken
    /// exactly those bytes more.
    fn write_frame(&mut self, fr: &Frame<'_>) -> (r: Result<(), IoFailure>)
        ensures
            r is Ok ==> final(self).written() == old(self).written() + encoding(fr@),
    ;
}

impl WriteFrame for Vec<u8> {
    open spec fn written(&self) -> Seq<u8> {
        self@
    }

    /// Appends the wire form of `fr`; a vector takes whatever it is given.
    fn write_frame(&mut self, fr: &Frame<'_>) -> (r: Result<(), IoFailure>)
        ensures
            r is Ok,
    {
        encode_into(self, fr);
        Ok(())
    }
}

/// The bytes of one stream that arrived and were not yet given out. A frame
/// that was given out stays in `bytes` until the next change, counted in
/// `taken`.
struct Backlog {
    bytes: Vec<u8>,
    taken: usize,
}

impl Backlog {
    #[verifier::type_invariant]
    spec fn taken_is_there(&self) -> bool {
        self.taken <= self.bytes@.len()
    }

    /// The bytes that were not given out.
    closed spec fn waiting(&self) -> Seq<u8> {
        after(self.bytes@, self.taken as nat)
    }

    fn new() -> (b: Backlog)
        ensures
            b.waiting() == Seq::<u8>::empty(),
    {
        Backlog { bytes: Vec::new(), taken: 0 }
    }

    /// The bytes that were not given out.
    fn rest(&self) -> (bytes: &[u8])
        ensures
            bytes@ == self.waiting(),
    {
        proof {
            use_type_invariant(self);
        }
        slice_subrange(self.bytes.as_slice(), self.taken, self.bytes.len())
    }

    /// Drops the bytes that were given out.
    fn compact(&mut self)
        ensures
            final(self).waiting() == old(self).waiting(),
            final(self).taken == 0,
            final(self).bytes@ == old(self).waiting(),
    {
        proof {
            use_type_invariant(&*self);
        }
        if self.taken > 0 {
            let taken = self.taken;
            let mut bytes: Vec<u8> = Vec::new();
            self.taken = 0;
            core::mem::swap(&mut self.bytes, &mut bytes);
            self.bytes = bytes.split_off(taken);
        }
        assert(final(self).bytes@ =~= old(self).waiting());
    }

    /// Adds `more` after the bytes that wait.
    fn extend(&mut self, more: &[u8])
        ensures
            final(self).waiting() == old(self).waiting() + more@,
    {
        self.compact();
        let mut bytes: Vec<u8> = Vec::new();
        core::mem::swap(&mut self.bytes, &mut bytes);
        bytes.extend_from_slice(more);
        self.bytes = bytes;
        assert(final(self).bytes@ =~= old(self).waiting() + more@);
    }
}

/// Bytes that arrived on a stream and wait to be read as frames, together
/// with the stream they came from. The reader does no input or output of its
/// own: whoever owns the loop reads the stream and hands over what came.
pub struct FrameReader<T> {
    r: T,
    buf: Backlog,
    fault: Option<IoFailure>,
}

/// One checked frame at the head of a reader's buffer. While the guard lives
/// the reader cannot be touched; once it is gone, the reader's buffer starts
/// right after the frame, whether or not the frame was ever decoded.
pub struct Guard<'a> {
    refer: &'a [u8],
    bytes: usize,
}

impl<'a> Guard<'a> {
    #[verifier::type_invariant]
    spec fn holds_a_frame(&self) -> bool {
        parse_frame(self.refer@) matches Ok((_, n)) && n == self.bytes
    }

    /// What the guarded frame says.
    pub closed spec fn says(&self) -> FrameView {
        parse_frame(self.refer@)->Ok_0.0
    }

    /// How many bytes the guarded frame takes.
    pub closed spec fn len(&self) -> nat {
        self.bytes as nat
    }

    /// Decodes the guarded frame, borrowing from the reader's buffer.
    pub fn frame(&self) -> (f: Frame<'_>)
        ensures
            f@ == self.says(),
    {
        proof {
            use_type_invariant(self);
        }
        let mut src = Cursor::new(self.refer);
        match Frame::decode(&mut src) {
            Ok(f) => f,
            Err(_) => unreached(),
        }
    }
}

impl<T> FrameReader<T> {
    /// The stream.
    pub closed spec fn stream(&self) -> T {
        self.r
    }

    /// The bytes that arrived and have not been given out in a frame.
    pub closed spec fn buffered(&self) -> Seq<u8> {
        self.buf.waiting()
    }

    /// The failure that the stream reported, if it did.
    pub closed spec fn fault(&self) -> Option<IoFailure> {
        self.fault
    }

    /// A reader for `reader`, with nothing buffered.
    pub fn new(reader: T) -> (fr: FrameReader<T>)
        ensures
            fr.stream() == reader,
            fr.buffered() == Seq::<u8>::empty(),
            fr.fault() is None,
    {
        FrameReader { r: reader, buf: Backlog::new(), fault: None }
    }

    /// The stream, to read from or write to.
    pub fn get_mut(&mut self) -> (r: &mut T)
        ensures
            *r == old(self).stream(),
            final(self).stream() == *final(r),
            final(self).buffered() == old(self).buffered(),
            final(self).fault() == old(self).fault(),
    {
        &mut self.r
    }

    /// The bytes that arrived and have not been given out in a frame.
    pub fn buffer(&self) -> (bytes: &[u8])
        ensures
            bytes@ == self.buffered(),
    {
        self.buf.rest()
    }

    /// Takes in the outcome of one read of the stream that did not wait:
    /// bytes that came are added after those buffered; `WouldBlock` and an
    /// empty read change nothing; any other failure is kept as the stream's
    /// fault.
    pub fn feed(&mut self, incoming: Result<&[u8], IoFailure>)
        ensures
            final(self).stream() == old(self).stream(),
            final(self).buffered() == match incoming {
                Ok(bytes) => old(self).buffered() + bytes@,
                Err(_) => old(self).buffered(),
            },
            final(self).fault() == match incoming {
                Ok(_) => old(self).fault(),
                Err(IoFailure::WouldBlock) => old(self).fault(),
                Err(failure) => Some(failure),
            },
    {
        match incoming {
            Ok(bytes) => {
                self.buf.extend(bytes);
            },
            Err(IoFailure::WouldBlock) => {},
            Err(failure) => {
                self.fault = Some(failure);
            },
        }
    }

    /// Looks for one whole frame at the head of the buffer.
    ///
    /// A stream that reported a fault gives that fault, whatever is
    /// buffered. Otherwise a whole frame at the head is given out under a
    /// guard, and the buffer then starts after it. Where the buffered bytes
    /// end before a frame does, the answer is `WouldBlock`: more bytes may
    /// complete it. Where they cannot be a frame, the answer is the parse
    /// error. In both cases the buffer stays as it is.
    pub fn read_frame(&mut self) -> (r: Result<Guard<'_>, ReadError>)
        ensures
            final(self).stream() == old(self).stream(),
            final(self).fault() == old(self).fault(),
            match read_outcome(old(self).fault(), old(self).buffered()) {
                ReadOutcome::Frame(v, n) => r matches Ok(guard) && guard.says() == v && guard.len()
                    == n && final(self).buffered() == after(old(self).buffered(), n),
                ReadOutcome::Pending => r matches Err(ReadError::Io(IoFailure::WouldBlock))
                    && final(self).buffered() == old(self).buffered(),
                ReadOutcome::Failed(failure) => r matches Err(ReadError::Io(f)) && f == failure
                    && final(self).buffered() == old(self).buffered(),
                ReadOutcome::Malformed(e) => r matches Err(ReadError::Parse(err)) && err@ == e
                    && final(self).buffered() == old(self).buffered(),
            },
    {
        if let Some(failure) = self.fault {
            return Err(ReadError::Io(failure));
        }
        self.buf.compact();
        let total = self.buf.bytes.len();
        let mut src = Cursor::new(self.buf.bytes.as_slice());
        proof {
            lemma_parse_frame_in_bounds(self.buf.bytes@);
        }
        match Frame::check(&mut src) {
            Ok(()) => {
                assert(src.pos() <= total);
                let n = src.position() as usize;
                self.buf.taken = n;
                Ok(Guard { refer: self.buf.bytes.as_slice(), bytes: n })
            },
            Err(ParseError::Cursor(CursorError::Underflow)) => Err(
                ReadError::Io(IoFailure::WouldBlock),
            ),
            Err(e) => Err(ReadError::Parse(e)),
        }
    }
}

/// What a reader finds, given its stream's fault and its buffered bytes.
pub enum ReadOutcome {
    /// A whole frame and the number of bytes it takes.
    Frame(FrameView, nat),
    /// No whole frame yet.
    Pending,
    /// The stream failed.
    Failed(IoFailure),
    /// The bytes cannot be a frame.
    Malformed(ParseFailure),
}

/// What `read_frame` finds: the fault first, then the grammar.
pub open spec fn read_outcome(fault: Option<IoFailure>, buffered: Seq<u8>) -> ReadOutcome {
    match fault {
        Some(failure) => ReadOutcome::Failed(failure),
        None => match parse_frame(buffered) {
            Ok((v, n)) => ReadOutcome::Frame(v, n),
            Err(e) => if e.is_incomplete() {
                ReadOutcome::Pending
            } else {
                ReadOutcome::Malformed(e)
            },
        },
    }
}

} // verus!
