//! The frame: its five variants, its wire form, and the codec that checks,
//! decodes and encodes it.

use crate::cursor::{
    after, byte, integer, lemma_after_after, lemma_line_end_in_bounds, line, next_byte,
    next_integer, next_line, next_size, next_slice, size, slice, Cursor, CR, LF,
};
use crate::decimal::{decimal, signed_decimal};
use crate::error::{CursorError, ParseError, ParseFailure};
use core::str::Utf8Error;
use vstd::prelude::*;
use vstd::string::StringSliceAdditionalSpecFns;
use vstd::utf8::{decode_utf8, encode_utf8, encode_utf8_decode_utf8, valid_utf8};

verus! {

/// One protocol message, borrowing its text and bytes from the buffer it was
/// decoded from.
#[derive(Debug, PartialEq)]
pub enum Frame<'a> {
    /// A line of text, written after `+`.
    Simple(&'a str),
    /// A line of text that reports an error, written after `-`.
    Errors(&'a str),
    /// A signed number, written after `:`.
    Integer(i64),
    /// Bytes of a declared length, written after `$`.
    BulkString(&'a [u8]),
    /// Frames in order, written after `*` and their count.
    Vecs(Vec<Frame<'a>>),
}

/// What a frame says, apart from where its bytes are kept.
pub enum FrameView {
    Simple(Seq<char>),
    Error(Seq<char>),
    Integer(i64),
    Bulk(Seq<u8>),
    Array(Seq<FrameView>),
}

/// What `frame` says: its text as characters, its bytes as a sequence, and
/// for an array what each of its frames says.
pub open spec fn view_of(frame: Frame<'_>) -> FrameView
    decreases frame,
{
    match frame {
        Frame::Simple(text) => FrameView::Simple(text@),
        Frame::Errors(text) => FrameView::Error(text@),
        Frame::Integer(value) => FrameView::Integer(value),
        Frame::BulkString(bytes) => FrameView::Bulk(bytes@),
        Frame::Vecs(items) => FrameView::Array(
            Seq::new(
                items@.len(),
                |i: int|
                    if 0 <= i < items@.len() {
                        view_of(items@[i])
                    } else {
                        arbitrary()
                    },
            ),
        ),
    }
}

impl<'a> View for Frame<'a> {
    type V = FrameView;

    open spec fn view(&self) -> FrameView {
        view_of(*self)
    }
}

/// What each of `frames` says, in order.
pub open spec fn views_of(frames: Seq<Frame<'_>>) -> Seq<FrameView> {
    Seq::new(frames.len(), |i: int| frames[i]@)
}

/// An array frame says what its frames say, in order.
pub proof fn lemma_view_of_array(frames: Vec<Frame<'_>>)
    ensures
        Frame::Vecs(frames)@ == FrameView::Array(views_of(frames@)),
{
    assert(Frame::Vecs(frames)@->Array_0 =~= views_of(frames@));
}

/// The tag of a simple string, `+`.
pub const SIMPLE: u8 = 43;

/// The tag of an error, `-`.
pub const ERROR: u8 = 45;

/// The tag of an integer, `:`.
pub const INTEGER: u8 = 58;

/// The tag of a bulk string, `$`.
pub const BULK: u8 = 36;

/// The tag of an array, `*`.
pub const ARRAY: u8 = 42;

/// The two bytes that end a line: carriage return, line feed.
pub open spec fn crlf() -> Seq<u8> {
    seq![CR, LF]
}

/// A frame and the number of bytes it took, or why the bytes are no frame.
pub type Parsed<T> = Result<(T, nat), ParseFailure>;

/// A line of valid UTF-8, as text.
pub open spec fn parse_text(s: Seq<u8>) -> Parsed<Seq<char>> {
    match next_line(s) {
        Ok((line, n)) => if valid_utf8(line) {
            Ok((decode_utf8(line), n))
        } else {
            Err(ParseFailure::Utf8)
        },
        Err(e) => Err(ParseFailure::Cursor(e)),
    }
}

/// A line that is a signed numeral.
pub open spec fn parse_integer(s: Seq<u8>) -> Parsed<i64> {
    match next_integer(s) {
        Ok((value, n)) => Ok((value, n)),
        Err(e) => Err(ParseFailure::Cursor(e)),
    }
}

/// A length line, that many bytes, and CR LF.
pub open spec fn parse_bulk(s: Seq<u8>) -> Parsed<Seq<u8>> {
    match next_size(s) {
        Ok((len, n)) => match next_slice(after(s, n), len as nat) {
            Ok((payload, k)) => match next_slice(after(s, n + k), 2) {
                Ok((end, _)) => if end == crlf() {
                    Ok((payload, n + k + 2))
                } else {
                    Err(ParseFailure::SizeMismatch(len))
                },
                Err(e) => Err(ParseFailure::Cursor(e)),
            },
            Err(e) => Err(ParseFailure::Cursor(e)),
        },
        Err(e) => Err(ParseFailure::Cursor(e)),
    }
}

/// The grammar of one frame at the start of `s`: a type tag, then what the
/// tag calls for. Bytes after the frame are not looked at.
pub open spec fn parse_frame(s: Seq<u8>) -> Parsed<FrameView>
    decreases s.len(), 0nat,
{
    match next_byte(s) {
        Ok((tag, _)) => {
            let body = after(s, 1);
            if tag == SIMPLE {
                match parse_text(body) {
                    Ok((text, n)) => Ok((FrameView::Simple(text), 1 + n)),
                    Err(e) => Err(e),
                }
            } else if tag == ERROR {
                match parse_text(body) {
                    Ok((text, n)) => Ok((FrameView::Error(text), 1 + n)),
                    Err(e) => Err(e),
                }
            } else if tag == INTEGER {
                match parse_integer(body) {
                    Ok((value, n)) => Ok((FrameView::Integer(value), 1 + n)),
                    Err(e) => Err(e),
                }
            } else if tag == BULK {
                match parse_bulk(body) {
                    Ok((bytes, n)) => Ok((FrameView::Bulk(bytes), 1 + n)),
                    Err(e) => Err(e),
                }
            } else if tag == ARRAY {
                match parse_array(body) {
                    Ok((items, n)) => Ok((FrameView::Array(items), 1 + n)),
                    Err(e) => Err(e),
                }
            } else {
                Err(ParseFailure::FrameType(tag))
            }
        },
        Err(e) => Err(ParseFailure::Cursor(e)),
    }
}

/// A count line and as many frames after it.
///
/// Where the bytes end before the declared count of frames is reached, the
/// array is incomplete like any frame that has not wholly arrived. Where one
/// of the frames is refused, fewer frames than declared can be had, and the
/// array is refused with `SizeMismatch` of the declared count.
pub open spec fn parse_array(s: Seq<u8>) -> Parsed<Seq<FrameView>>
    decreases s.len(), 1nat,
{
    match next_size(s) {
        Ok((count, n)) => {
            proof {
                lemma_line_end_in_bounds(s);
            }
            match parse_items(after(s, n), count as nat) {
                Ok((items, k)) => Ok((items, n + k)),
                Err(e) => if e.is_incomplete() {
                    Err(e)
                } else {
                    Err(ParseFailure::SizeMismatch(count))
                },
            }
        },
        Err(e) => Err(ParseFailure::Cursor(e)),
    }
}

/// `count` frames one after the other at the start of `s`. The first frame
/// that fails gives its failure to the run.
pub open spec fn parse_items(s: Seq<u8>, count: nat) -> Parsed<Seq<FrameView>>
    decreases s.len(), count + 2,
{
    if count == 0 {
        Ok((Seq::empty(), 0))
    } else {
        match parse_frame(s) {
            Ok((first, n)) => match parse_items(after(s, n), (count - 1) as nat) {
                Ok((others, k)) => Ok((seq![first] + others, n + k)),
                Err(e) => Err(e),
            },
            Err(e) => Err(e),
        }
    }
}

/// The wire form of a frame.
pub open spec fn encoding(v: FrameView) -> Seq<u8>
    decreases v,
{
    match v {
        FrameView::Simple(text) => seq![SIMPLE] + encode_utf8(text) + crlf(),
        FrameView::Error(text) => seq![ERROR] + encode_utf8(text) + crlf(),
        FrameView::Integer(value) => seq![INTEGER] + signed_decimal(value as int) + crlf(),
        FrameView::Bulk(bytes) => seq![BULK] + decimal(bytes.len()) + crlf() + bytes + crlf(),
        FrameView::Array(items) => seq![ARRAY] + decimal(items.len()) + crlf() + encoding_all(
            items,
        ),
    }
}

/// The wire forms of `items`, one after the other.
pub open spec fn encoding_all(items: Seq<FrameView>) -> Seq<u8>
    decreases items,
{
    if items.len() == 0 {
        Seq::empty()
    } else {
        encoding(items[0]) + encoding_all(items.drop_first())
    }
}

/// The wire form of a run of frames is the wire forms of its two parts, one
/// after the other.
pub proof fn lemma_encoding_all_concat(a: Seq<FrameView>, b: Seq<FrameView>)
    ensures
        encoding_all(a + b) == encoding_all(a) + encoding_all(b),
    decreases a.len(),
{
    if a.len() == 0 {
        assert(a + b =~= b);
        assert(encoding_all(a) + encoding_all(b) =~= encoding_all(b));
    } else {
        assert((a + b).drop_first() =~= a.drop_first() + b);
        lemma_encoding_all_concat(a.drop_first(), b);
        assert(encoding_all(a + b) =~= encoding_all(a) + encoding_all(b));
    }
}

/// One more frame at the end of a run adds its wire form at the end.
pub proof fn lemma_encoding_all_push(items: Seq<FrameView>, last: FrameView)
    ensures
        encoding_all(items.push(last)) == encoding_all(items) + encoding(last),
{
    let one = seq![last];
    assert(one.drop_first() =~= Seq::<FrameView>::empty());
    assert(encoding_all(one.drop_first()) =~= Seq::<u8>::empty());
    assert(encoding_all(one) =~= encoding(last));
    assert(items.push(last) =~= items + one);
    lemma_encoding_all_concat(items, one);
}

/// `items` and `used` bytes came first; `rest` is what the frames after them
/// gave.
pub open spec fn and_then(items: Seq<FrameView>, used: nat, rest: Parsed<Seq<FrameView>>) -> Parsed<
    Seq<FrameView>,
> {
    match rest {
        Ok((others, k)) => Ok((items + others, used + k)),
        Err(e) => Err(e),
    }
}

/// A frame that was parsed took at least one byte and no more than there were.
pub proof fn lemma_parse_frame_in_bounds(s: Seq<u8>)
    ensures
        parse_frame(s) matches Ok((_, n)) ==> 0 < n <= s.len(),
    decreases s.len(), 0nat,
{
    if s.len() > 0 {
        let body = after(s, 1);
        lemma_line_end_in_bounds(body);
        if s[0] == ARRAY {
            if let Ok((count, n)) = next_size(body) {
                lemma_parse_items_in_bounds(after(body, n), count as nat);
            }
        }
    }
}

/// Frames that were parsed are as many as were asked for, and took no more
/// bytes than there were.
pub proof fn lemma_parse_items_in_bounds(s: Seq<u8>, count: nat)
    ensures
        parse_items(s, count) matches Ok((items, n)) ==> items.len() == count && n <= s.len(),
    decreases s.len(), count + 1,
{
    if count > 0 {
        lemma_parse_frame_in_bounds(s);
        if let Ok((_, n)) = parse_frame(s) {
            lemma_parse_items_in_bounds(after(s, n), (count - 1) as nat);
        }
    }
}

/// `core::str::from_utf8`: it succeeds exactly on well-formed UTF-8, and the
/// text it then returns is made of the bytes it was given.
pub assume_specification<'a>[ core::str::from_utf8 ](v: &'a [u8]) -> (r: Result<
    &'a str,
    Utf8Error,
>)
    ensures
        r is Ok <==> valid_utf8(v@),
        r matches Ok(text) ==> text.spec_bytes() == v@,
;

/// Reads a line of text.
fn text<'a>(src: &mut Cursor<'a>) -> (r: Result<&'a str, ParseError>)
    ensures
        match parse_text(old(src).remaining()) {
            Ok((chars, n)) => r matches Ok(got) && got@ == chars && final(src).moved(old(src), n),
            Err(e) => r matches Err(err) && err@ == e && final(src).moved(old(src), 0),
        },
{
    let start = src.position();
    let bytes = match line(src) {
        Ok(bytes) => bytes,
        Err(e) => {
            return Err(ParseError::Cursor(e));
        },
    };
    match core::str::from_utf8(bytes) {
        Ok(got) => {
            proof {
                encode_utf8_decode_utf8(got@);
            }
            Ok(got)
        },
        Err(e) => {
            src.set_position(start);
            Err(ParseError::Utf8(e))
        },
    }
}

/// Reads a length line, the payload it announces, and the CR LF after it.
fn bulk<'a>(src: &mut Cursor<'a>) -> (r: Result<&'a [u8], ParseError>)
    ensures
        match parse_bulk(old(src).remaining()) {
            Ok((bytes, n)) => r matches Ok(got) && got@ == bytes && final(src).moved(old(src), n),
            Err(e) => r matches Err(err) && err@ == e && final(src).moved(old(src), 0),
        },
{
    let start = src.position();
    let len = match size(src) {
        Ok(len) => len,
        Err(e) => {
            return Err(ParseError::Cursor(e));
        },
    };
    proof {
        let s = old(src).remaining();
        lemma_line_end_in_bounds(s);
        let n = next_size(s)->Ok_0.1;
        lemma_after_after(s, n, len as nat);
    }
    let payload = match slice(src, len) {
        Ok(payload) => payload,
        Err(e) => {
            src.set_position(start);
            return Err(ParseError::Cursor(e));
        },
    };
    let end = match slice(src, 2) {
        Ok(end) => end,
        Err(e) => {
            src.set_position(start);
            return Err(ParseError::Cursor(e));
        },
    };
    if end[0] == CR && end[1] == LF {
        assert(end@ =~= crlf());
        Ok(payload)
    } else {
        src.set_position(start);
        Err(ParseError::SizeMismatch(len))
    }
}

impl<'a> Frame<'a> {
    /// Checks that a frame starts at the cursor, without building it.
    ///
    /// On success the cursor stands right after the frame. On failure it
    /// stands where it was, and the error is the one the grammar gives:
    /// `Cursor(Underflow)` where the bytes end before the frame does, so that
    /// more bytes may still complete it; any other error where no further
    /// bytes can mend what is there. An array one of whose frames is refused
    /// gives `SizeMismatch` of its declared count.
    pub fn check(src: &mut Cursor<'_>) -> (r: Result<(), ParseError>)
        ensures
            match parse_frame(old(src).remaining()) {
                Ok((_, n)) => r is Ok && final(src).moved(old(src), n),
                Err(e) => r matches Err(err) && err@ == e && final(src).moved(old(src), 0),
            },
        decreases old(src).remaining().len(),
    {
        let start = src.position();
        let tag = match byte(src) {
            Ok(tag) => tag,
            Err(e) => {
                return Err(ParseError::Cursor(e));
            },
        };
        let body: Result<(), ParseError> = if tag == SIMPLE || tag == ERROR {
            match text(src) {
                Ok(_) => Ok(()),
                Err(e) => Err(e),
            }
        } else if tag == INTEGER {
            match integer(src) {
                Ok(_) => Ok(()),
                Err(e) => Err(ParseError::Cursor(e)),
            }
        } else if tag == BULK {
            match bulk(src) {
                Ok(_) => Ok(()),
                Err(e) => Err(e),
            }
        } else if tag == ARRAY {
            Self::check_items(src)
        } else {
            Err(ParseError::FrameType(tag))
        };
        if body.is_err() {
            src.set_position(start);
        }
        body
    }

    /// What an array of `count` declared frames is refused with when one of
    /// its frames gave `e`: the wait for more bytes is handed on, and any
    /// refusal means that the declared count cannot be met.
    fn short_of(count: u64, e: ParseError) -> (r: ParseError)
        ensures
            r@ == if e@.is_incomplete() {
                e@
            } else {
                ParseFailure::SizeMismatch(count)
            },
    {
        match e {
            ParseError::Cursor(CursorError::Underflow) => e,
            _ => ParseError::SizeMismatch(count),
        }
    }

    /// Checks a count line and as many frames after it.
    fn check_items(src: &mut Cursor<'_>) -> (r: Result<(), ParseError>)
        ensures
            match parse_array(old(src).remaining()) {
                Ok((_, n)) => r is Ok && final(src).moved(old(src), n),
                Err(e) => r matches Err(err) && err@ == e && final(src).moved(old(src), 0),
            },
        decreases old(src).remaining().len(),
    {
        let start = src.position();
        let count = match size(src) {
            Ok(count) => count,
            Err(e) => {
                return Err(ParseError::Cursor(e));
            },
        };
        let ghost first = src.remaining();
        let ghost header = (src.pos() - old(src).pos()) as nat;
        let ghost mut items: Seq<FrameView> = Seq::empty();
        let ghost mut used: nat = 0;
        let mut done: u64 = 0;
        proof {
            lemma_line_end_in_bounds(old(src).remaining());
            assert(items + parse_items(first, count as nat)->Ok_0.0 =~= parse_items(
                first,
                count as nat,
            )->Ok_0.0);
        }
        while done < count
            invariant
                done <= count,
                start == old(src).pos(),
                0 < header <= old(src).remaining().len(),
                next_size(old(src).remaining()) == Ok::<(u64, nat), CursorError>((count, header)),
                first == after(old(src).remaining(), header),
                used <= first.len(),
                src.moved(old(src), header + used),
                and_then(items, used, parse_items(src.remaining(), (count - done) as nat))
                    == parse_items(first, count as nat),
            decreases count - done,
        {
            let ghost here = src.remaining();
            match Frame::check(src) {
                Ok(()) => {
                    proof {
                        lemma_parse_frame_in_bounds(here);
                        let (one, n) = parse_frame(here)->Ok_0;
                        let rest = parse_items(after(here, n), (count - done - 1) as nat);
                        if let Ok((others, k)) = rest {
                            assert(items.push(one) + others =~= items + (seq![one] + others));
                        }
                        items = items.push(one);
                        used = used + n;
                    }
                },
                Err(e) => {
                    src.set_position(start);
                    return Err(Self::short_of(count, e));
                },
            }
            done += 1;
        }
        proof {
            assert(items + Seq::<FrameView>::empty() =~= items);
        }
        Ok(())
    }

    /// Decodes the frame that starts at the cursor; its text and bytes are
    /// borrowed from the slice under the cursor.
    ///
    /// It succeeds on the inputs on which `check` does and moves the cursor
    /// as `check` does; on the others it gives the error that `check` gives
    /// and leaves the cursor where it was.
    pub fn decode(src: &mut Cursor<'a>) -> (r: Result<Frame<'a>, ParseError>)
        ensures
            match parse_frame(old(src).remaining()) {
                Ok((v, n)) => r matches Ok(frame) && frame@ == v && final(src).moved(old(src), n),
                Err(e) => r matches Err(err) && err@ == e && final(src).moved(old(src), 0),
            },
        decreases old(src).remaining().len(),
    {
        let start = src.position();
        let tag = match byte(src) {
            Ok(tag) => tag,
            Err(e) => {
                return Err(ParseError::Cursor(e));
            },
        };
        let body: Result<Frame<'a>, ParseError> = if tag == SIMPLE {
            match text(src) {
                Ok(got) => Ok(Frame::Simple(got)),
                Err(e) => Err(e),
            }
        } else if tag == ERROR {
            match text(src) {
                Ok(got) => Ok(Frame::Errors(got)),
                Err(e) => Err(e),
            }
        } else if tag == INTEGER {
            match integer(src) {
                Ok(value) => Ok(Frame::Integer(value)),
                Err(e) => Err(ParseError::Cursor(e)),
            }
        } else if tag == BULK {
            match bulk(src) {
                Ok(bytes) => Ok(Frame::BulkString(bytes)),
                Err(e) => Err(e),
            }
        } else if tag == ARRAY {
            match Self::decode_items(src) {
                Ok(items) => {
                    proof {
                        lemma_view_of_array(items);
                    }
                    Ok(Frame::Vecs(items))
                },
                Err(e) => Err(e),
            }
        } else {
            Err(ParseError::FrameType(tag))
        };
        if body.is_err() {
            src.set_position(start);
        }
        body
    }

    /// Decodes a count line and as many frames after it.
    fn decode_items(src: &mut Cursor<'a>) -> (r: Result<Vec<Frame<'a>>, ParseError>)
        ensures
            match parse_array(old(src).remaining()) {
                Ok((items, n)) => r matches Ok(frames) && views_of(frames@) == items
                    && final(src).moved(old(src), n),
                Err(e) => r matches Err(err) && err@ == e && final(src).moved(old(src), 0),
            },
        decreases old(src).remaining().len(),
    {
        let start = src.position();
        let count = match size(src) {
            Ok(count) => count,
            Err(e) => {
                return Err(ParseError::Cursor(e));
            },
        };
        let ghost first = src.remaining();
        let ghost header = (src.pos() - old(src).pos()) as nat;
        let ghost mut items: Seq<FrameView> = Seq::empty();
        let ghost mut used: nat = 0;
        let mut frames: Vec<Frame<'a>> = Vec::new();
        let mut done: u64 = 0;
        proof {
            lemma_line_end_in_bounds(old(src).remaining());
            assert(items + parse_items(first, count as nat)->Ok_0.0 =~= parse_items(
                first,
                count as nat,
            )->Ok_0.0);
        }
        while done < count
            invariant
                done <= count,
                start == old(src).pos(),
                0 < header <= old(src).remaining().len(),
                next_size(old(src).remaining()) == Ok::<(u64, nat), CursorError>((count, header)),
                first == after(old(src).remaining(), header),
                used <= first.len(),
                src.moved(old(src), header + used),
                and_then(items, used, parse_items(src.remaining(), (count - done) as nat))
                    == parse_items(first, count as nat),
                frames@.len() == items.len(),
                forall|i: int| 0 <= i < items.len() ==> (#[trigger] frames@[i])@ == items[i],
            decreases count - done,
        {
            let ghost here = src.remaining();
            match Frame::decode(src) {
                Ok(frame) => {
                    proof {
                        lemma_parse_frame_in_bounds(here);
                        let (one, n) = parse_frame(here)->Ok_0;
                        let rest = parse_items(after(here, n), (count - done - 1) as nat);
                        if let Ok((others, k)) = rest {
                            assert(items.push(one) + others =~= items + (seq![one] + others));
                        }
                        items = items.push(one);
                        used = used + n;
                    }
                    frames.push(frame);
                },
                Err(e) => {
                    src.set_position(start);
                    return Err(Self::short_of(count, e));
                },
            }
            done += 1;
        }
        proof {
            assert(items + Seq::<FrameView>::empty() =~= items);
            assert(views_of(frames@) =~= items);
        }
        Ok(frames)
    }

    /// The frames of an array, and `None` for any other frame.
    pub fn as_array(&self) -> (r: Option<&[Frame<'a>]>)
        ensures
            match self {
                Frame::Vecs(items) => r matches Some(frames) && frames@ == items@,
                _ => r is None,
            },
    {
        match self {
            Frame::Vecs(items) => Some(items.as_slice()),
            _ => None,
        }
    }
}

} // verus!
