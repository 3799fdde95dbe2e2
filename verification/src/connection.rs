//! One client: its reader, the name it joined under, and its number.

use crate::cursor::after;
use crate::error::IoFailure;
use crate::frame::{Frame, FrameView};
use crate::rw::{read_outcome, FrameReader, ReadOutcome};
use vstd::prelude::*;
use vstd::string::StringSliceAdditionalSpecFns;
use vstd::utf8::encode_utf8_decode_utf8;

verus! {

/// A client that has joined.
pub struct Connection<T> {
    /// The reader over the client's stream.
    pub reader: FrameReader<T>,
    /// The name the client gave when it joined.
    pub name: String,
    /// The number the server gave the client.
    pub id: u32,
}

/// What a connection is, apart from how its bytes are kept.
pub struct ConnectionView<T> {
    pub stream: T,
    pub name: Seq<char>,
    pub id: u32,
    pub buffered: Seq<u8>,
    pub fault: Option<IoFailure>,
}

impl<T> View for Connection<T> {
    type V = ConnectionView<T>;

    open spec fn view(&self) -> ConnectionView<T> {
        ConnectionView {
            stream: self.reader.stream(),
            name: self.name@,
            id: self.id,
            buffered: self.reader.buffered(),
            fault: self.reader.fault(),
        }
    }
}

/// The text of the second of two simple strings in an array whose first is
/// `word`; `None` for any other frame.
pub open spec fn command_text(v: FrameView, word: Seq<char>) -> Option<Seq<char>> {
    match v {
        FrameView::Array(items) => if items.len() == 2 && items[0] == FrameView::Simple(word) {
            match items[1] {
                FrameView::Simple(text) => Some(text),
                _ => None,
            }
        } else {
            None
        },
        _ => None,
    }
}

/// The name under which a client joins with `v`, where `v` is a join request:
/// an array of exactly the simple strings `JOIN` and the name.
pub open spec fn join_name(v: FrameView) -> Option<Seq<char>> {
    command_text(v, "JOIN"@)
}

/// What the first bytes of a new stream lead to: the name of the client and
/// the bytes left over after its join request, or `None` where the client is
/// turned away.
pub open spec fn handshake(incoming: Result<Seq<u8>, IoFailure>) -> Option<(Seq<char>, Seq<u8>)> {
    match incoming {
        Ok(bytes) => match read_outcome(None, bytes) {
            ReadOutcome::Frame(v, n) => match join_name(v) {
                Some(name) => Some((name, after(bytes, n))),
                None => None,
            },
            _ => None,
        },
        Err(_) => None,
    }
}

/// Whether two texts are the same, byte by byte.
pub fn same_text(a: &str, b: &str) -> (same: bool)
    ensures
        same == (a@ == b@),
{
    let x = a.as_bytes();
    let y = b.as_bytes();
    proof {
        encode_utf8_decode_utf8(a@);
        encode_utf8_decode_utf8(b@);
    }
    if x.len() != y.len() {
        return false;
    }
    let mut i: usize = 0;
    while i < x.len()
        invariant
            0 <= i <= x.len(),
            x.len() == y.len(),
            x@ == a.spec_bytes(),
            y@ == b.spec_bytes(),
            forall|k: int| 0 <= k < i ==> x@[k] == y@[k],
        decreases x.len() - i,
    {
        if x[i] != y[i] {
            return false;
        }
        i += 1;
    }
    assert(x@ =~= y@);
    true
}

/// The text that comes with the command `word` in `frame`, where `frame` is
/// that command.
pub fn command<'f>(frame: &'f Frame<'_>, word: &str) -> (text: Option<&'f str>)
    ensures
        match command_text(frame@, word@) {
            Some(chars) => text matches Some(got) && got@ == chars,
            None => text is None,
        },
{
    let items = match frame.as_array() {
        Some(items) => items,
        None => {
            return None;
        },
    };
    proof {
        if let Frame::Vecs(all) = frame {
            crate::frame::lemma_view_of_array(*all);
        }
    }
    if items.len() != 2 {
        return None;
    }
    match (&items[0], &items[1]) {
        (Frame::Simple(first), Frame::Simple(second)) => {
            if same_text(first, word) {
                Some(*second)
            } else {
                None
            }
        },
        _ => None,
    }
}

impl<T> Connection<T> {
    /// Admits the client behind `reader`, or turns it away.
    ///
    /// `incoming` is the outcome of the one read of the new stream. The
    /// client is admitted where those bytes start with a whole join request;
    /// what follows the request stays buffered. A failed read, a request that
    /// has not wholly arrived, bytes that are no frame and a frame that is no
    /// join request all turn the client away, and its stream is dropped.
    pub fn establish(reader: T, id: u32, incoming: Result<&[u8], IoFailure>) -> (made: Option<Self>)
        ensures
            match handshake(
                match incoming {
                    Ok(bytes) => Ok(bytes@),
                    Err(e) => Err(e),
                },
            ) {
                Some((name, rest)) => made matches Some(c) && c@ == (ConnectionView {
                    stream: reader,
                    name,
                    id,
                    buffered: rest,
                    fault: None,
                }),
                None => made is None,
            },
    {
        let mut reader = FrameReader::new(reader);
        match incoming {
            Ok(bytes) => {
                reader.feed(Ok(bytes));
                assert(reader.buffered() =~= bytes@);
            },
            Err(_) => {
                return None;
            },
        }
        let name = match reader.read_frame() {
            Ok(guard) => {
                let frame = guard.frame();
                match command(&frame, "JOIN") {
                    Some(name) => name.to_owned(),
                    None => {
                        return None;
                    },
                }
            },
            Err(_) => {
                return None;
            },
        };
        Some(Connection { reader, name, id })
    }
}

} // verus!
