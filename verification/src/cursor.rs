//! A read position over a borrowed byte slice, and the five reads that the
//! frame grammar is made of. Every read either succeeds and moves the position
//! past what it read, or fails and leaves the position where it was.

use crate::decimal::{parse_i64, parse_u64, signed_value, unsigned_value};
use crate::error::CursorError;
use vstd::prelude::*;
use vstd::slice::slice_subrange;

verus! {

/// A byte slice and a position in it. The position may lie past the end, in
/// which case nothing remains to be read.
pub struct Cursor<'a> {
    inner: &'a [u8],
    pos: u64,
}

impl<'a> Cursor<'a> {
    /// All the bytes under the cursor, read or not.
    pub closed spec fn data(&self) -> Seq<u8> {
        self.inner@
    }

    /// How many bytes lie before the position.
    pub closed spec fn pos(&self) -> nat {
        self.pos as nat
    }

    /// The bytes from the position to the end.
    pub open spec fn remaining(&self) -> Seq<u8> {
        after(self.data(), self.pos())
    }

    /// `self` is `before` with the position `n` bytes further on, `n` being no
    /// more than what remained; with `n == 0`, `self` is where `before` was.
    pub open spec fn moved(&self, before: &Cursor<'_>, n: nat) -> bool {
        &&& self.data() == before.data()
        &&& self.pos() == before.pos() + n
        &&& n <= before.remaining().len()
        &&& self.remaining() =~= after(before.remaining(), n)
    }

    /// A cursor at the start of `inner`.
    pub fn new(inner: &'a [u8]) -> (c: Cursor<'a>)
        ensures
            c.data() == inner@,
            c.pos() == 0,
            c.remaining() == inner@,
    {
        let c = Cursor { inner, pos: 0 };
        assert(c.remaining() =~= inner@);
        c
    }

    /// The position.
    pub fn position(&self) -> (p: u64)
        ensures
            p == self.pos(),
    {
        self.pos
    }

    /// Moves the position; the bytes stay.
    pub fn set_position(&mut self, pos: u64)
        ensures
            final(self).pos() == pos,
            final(self).data() == old(self).data(),
    {
        self.pos = pos;
    }

    /// The slice under the cursor.
    pub fn get_ref(&self) -> (inner: &'a [u8])
        ensures
            inner@ == self.data(),
    {
        self.inner
    }

    /// The unread bytes, borrowed from the slice under the cursor.
    fn rest(&self) -> (r: &'a [u8])
        ensures
            r@ == self.remaining(),
    {
        let len = self.inner.len();
        if self.pos <= len as u64 {
            slice_subrange(self.inner, self.pos as usize, len)
        } else {
            slice_subrange(self.inner, len, len)
        }
    }

    /// Moves the position `n` bytes on, `n` being no more than what remains.
    fn advance(&mut self, n: usize)
        requires
            n <= old(self).remaining().len(),
        ensures
            final(self).pos() == old(self).pos() + n,
            final(self).data() == old(self).data(),
            final(self).remaining() == old(self).remaining().skip(n as int),
    {
        let len = self.inner.len();
        assert(self.pos + n <= len || n == 0);
        self.pos = self.pos + n as u64;
    }
}

/// What follows the first `n` bytes of `s`; nothing where `s` is no longer
/// than that.
pub open spec fn after(s: Seq<u8>, n: nat) -> Seq<u8> {
    if n <= s.len() {
        s.skip(n as int)
    } else {
        Seq::empty()
    }
}

/// What a read found and how many bytes it took, or why it failed.
pub type Read<T> = Result<(T, nat), CursorError>;

/// The byte of a carriage return.
pub const CR: u8 = 13;

/// The byte of a line feed.
pub const LF: u8 = 10;

/// `s` holds a carriage return at `i` and a line feed right after it.
pub open spec fn is_crlf_at(s: Seq<u8>, i: int) -> bool {
    0 <= i && i + 1 < s.len() && s[i] == CR && s[i + 1] == LF
}

/// The place of the first CR LF pair at or after `i`.
pub open spec fn line_end_from(s: Seq<u8>, i: int) -> Option<int>
    decreases s.len() - i,
{
    if i < 0 || i + 1 >= s.len() {
        None
    } else if s[i] == CR && s[i + 1] == LF {
        Some(i)
    } else {
        line_end_from(s, i + 1)
    }
}

/// The place of the first CR LF pair in `s`: where its first line ends.
pub open spec fn line_end(s: Seq<u8>) -> Option<int> {
    line_end_from(s, 0)
}

/// The next byte.
pub open spec fn next_byte(s: Seq<u8>) -> Read<u8> {
    if s.len() > 0 {
        Ok((s[0], 1))
    } else {
        Err(CursorError::Underflow)
    }
}

/// The next `n` bytes.
pub open spec fn next_slice(s: Seq<u8>, n: nat) -> Read<Seq<u8>> {
    if n <= s.len() {
        Ok((s.take(n as int), n))
    } else {
        Err(CursorError::Underflow)
    }
}

/// The bytes before the first CR LF pair; the pair is taken too.
pub open spec fn next_line(s: Seq<u8>) -> Read<Seq<u8>> {
    match line_end(s) {
        Some(i) => Ok((s.take(i), (i + 2) as nat)),
        None => Err(CursorError::Underflow),
    }
}

/// A line that is an unsigned numeral of at most `u64::MAX`.
pub open spec fn next_size(s: Seq<u8>) -> Read<u64> {
    match next_line(s) {
        Ok((text, n)) => match unsigned_value(text) {
            Some(v) => if v <= u64::MAX {
                Ok((v as u64, n))
            } else {
                Err(CursorError::OutOfRange)
            },
            None => Err(CursorError::OutOfRange),
        },
        Err(e) => Err(e),
    }
}

/// A line that is a signed numeral within `i64`.
pub open spec fn next_integer(s: Seq<u8>) -> Read<i64> {
    match next_line(s) {
        Ok((text, n)) => match signed_value(text) {
            Some(v) => if i64::MIN <= v <= i64::MAX {
                Ok((v as i64, n))
            } else {
                Err(CursorError::OutOfRange)
            },
            None => Err(CursorError::OutOfRange),
        },
        Err(e) => Err(e),
    }
}

/// Dropping `a` bytes and then `b` more is dropping `a + b`.
pub proof fn lemma_after_after(s: Seq<u8>, a: nat, b: nat)
    ensures
        after(after(s, a), b) =~= after(s, a + b),
{
}

/// `line_end_from` finds the first pair at or after `i`, and only reports
/// none where there is none.
pub proof fn lemma_line_end_from(s: Seq<u8>, i: int)
    requires
        0 <= i,
    ensures
        match line_end_from(s, i) {
            Some(e) => i <= e && is_crlf_at(s, e) && forall|j: int|
                i <= j < e ==> !is_crlf_at(s, j),
            None => forall|j: int| i <= j ==> !is_crlf_at(s, j),
        },
    decreases s.len() - i,
{
    if i + 1 < s.len() && !(s[i] == CR && s[i + 1] == LF) {
        lemma_line_end_from(s, i + 1);
    }
}

/// The first line of `s` ends at `e` exactly where a pair stands at `e` and
/// none stands before it.
pub proof fn lemma_line_end_is_first(s: Seq<u8>, e: int)
    requires
        is_crlf_at(s, e),
        forall|j: int| 0 <= j < e ==> !is_crlf_at(s, j),
    ensures
        line_end(s) == Some(e),
{
    lemma_line_end_from(s, 0);
}

/// A sequence without any CR LF pair has no line end.
pub proof fn lemma_no_line_end(s: Seq<u8>)
    requires
        forall|j: int| 0 <= j ==> !is_crlf_at(s, j),
    ensures
        line_end(s) is None,
{
    lemma_line_end_from(s, 0);
}

/// A line ends within the sequence: the line and its terminator fit.
pub proof fn lemma_line_end_in_bounds(s: Seq<u8>)
    ensures
        line_end(s) matches Some(e) ==> 0 <= e && e + 2 <= s.len(),
{
    lemma_line_end_from(s, 0);
}

/// Reads one byte.
///
/// `Underflow` where nothing remains.
pub fn byte(src: &mut Cursor<'_>) -> (r: Result<u8, CursorError>)
    ensures
        match next_byte(old(src).remaining()) {
            Ok((b, n)) => r == Ok::<u8, CursorError>(b) && final(src).moved(old(src), n),
            Err(e) => r == Err::<u8, CursorError>(e) && final(src).moved(old(src), 0),
        },
{
    let rest = src.rest();
    if rest.len() == 0 {
        return Err(CursorError::Underflow);
    }
    let b = rest[0];
    src.advance(1);
    Ok(b)
}

/// Reads the next `n` bytes, borrowed from the slice under the cursor.
///
/// `Underflow` where fewer than `n` remain.
pub fn slice<'a>(src: &mut Cursor<'a>, n: u64) -> (r: Result<&'a [u8], CursorError>)
    ensures
        match next_slice(old(src).remaining(), n as nat) {
            Ok((bytes, k)) => r matches Ok(got) && got@ == bytes && final(src).moved(old(src), k),
            Err(e) => r == Err::<&[u8], CursorError>(e) && final(src).moved(old(src), 0),
        },
{
    let rest = src.rest();
    if n > rest.len() as u64 {
        return Err(CursorError::Underflow);
    }
    let got = slice_subrange(rest, 0, n as usize);
    src.advance(n as usize);
    Ok(got)
}

/// Reads up to the next CR LF pair and steps over the pair; the line is
/// borrowed from the slice under the cursor, without its terminator.
///
/// `Underflow` where no CR LF pair remains.
pub fn line<'a>(src: &mut Cursor<'a>) -> (r: Result<&'a [u8], CursorError>)
    ensures
        match next_line(old(src).remaining()) {
            Ok((text, n)) => r matches Ok(got) && got@ == text && final(src).moved(old(src), n),
            Err(e) => r == Err::<&[u8], CursorError>(e) && final(src).moved(old(src), 0),
        },
{
    let rest = src.rest();
    let len = rest.len();
    let mut i: usize = 0;
    while i < len && i + 1 < len
        invariant
            len == rest@.len(),
            rest@ == src.remaining(),
            *src == *old(src),
            forall|j: int| 0 <= j < i ==> !is_crlf_at(rest@, j),
        decreases len - i,
    {
        if rest[i] == CR && rest[i + 1] == LF {
            proof {
                lemma_line_end_is_first(rest@, i as int);
            }
            let got = slice_subrange(rest, 0, i);
            src.advance(i + 2);
            return Ok(got);
        }
        i += 1;
    }
    proof {
        lemma_no_line_end(rest@);
    }
    Err(CursorError::Underflow)
}

/// Reads a line that holds an unsigned numeral.
///
/// `Underflow` where no line is complete; `OutOfRange` where the line is not
/// an unsigned numeral or denotes more than `u64::MAX`.
pub fn size(src: &mut Cursor<'_>) -> (r: Result<u64, CursorError>)
    ensures
        match next_size(old(src).remaining()) {
            Ok((v, n)) => r == Ok::<u64, CursorError>(v) && final(src).moved(old(src), n),
            Err(e) => r == Err::<u64, CursorError>(e) && final(src).moved(old(src), 0),
        },
{
    let start = src.position();
    let text = line(src)?;
    match parse_u64(text) {
        Some(v) => Ok(v),
        None => {
            src.set_position(start);
            Err(CursorError::OutOfRange)
        },
    }
}

/// Reads a line that holds a signed numeral.
///
/// `Underflow` where no line is complete; `OutOfRange` where the line is not
/// a signed numeral or denotes a value outside `i64`.
pub fn integer(src: &mut Cursor<'_>) -> (r: Result<i64, CursorError>)
    ensures
        match next_integer(old(src).remaining()) {
            Ok((v, n)) => r == Ok::<i64, CursorError>(v) && final(src).moved(old(src), n),
            Err(e) => r == Err::<i64, CursorError>(e) && final(src).moved(old(src), 0),
        },
{
    let start = src.position();
    let text = line(src)?;
    match parse_i64(text) {
        Some(v) => Ok(v),
        None => {
            src.set_position(start);
            Err(CursorError::OutOfRange)
        },
    }
}

} // verus!
