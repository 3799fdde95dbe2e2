//! What holds of the codec on every input: decoding undoes encoding, and
//! which inputs are refused with which error.

use crate::cursor::{
    after, is_crlf_at, lemma_after_after, lemma_line_end_from, lemma_line_end_in_bounds,
    lemma_line_end_is_first, line_end, next_byte, next_integer, next_line, next_size, next_slice,
    CR, LF,
};
use crate::decimal::{
    all_digits, decimal, is_digit, lemma_decimal_round_trip, lemma_signed_decimal_bytes,
    lemma_signed_decimal_round_trip, signed_decimal, MINUS,
};
use crate::error::{CursorError, ParseFailure};
use crate::frame::{
    crlf, encoding, encoding_all, lemma_parse_frame_in_bounds, lemma_parse_items_in_bounds,
    parse_array, parse_bulk, parse_frame, parse_items, parse_text, Frame, FrameView, ARRAY, BULK,
    ERROR, INTEGER, SIMPLE,
};
use vstd::prelude::*;
use vstd::utf8::{
    char_is_scalar, encode_scalar, encode_utf8, encode_utf8_decode_utf8, encode_utf8_valid_utf8,
};

verus! {

/// No carriage return in `bytes` is followed by a line feed, so that `bytes`
/// can stand in a line without ending it early.
pub open spec fn line_safe(bytes: Seq<u8>) -> bool {
    forall|i: int| !is_crlf_at(bytes, i)
}

/// A frame that the wire form can carry without loss: its text does not end
/// its own line early, and its lengths fit the 64-bit length and count lines.
/// Text without any carriage return or line feed is of that kind.
pub open spec fn encodable(v: FrameView) -> bool
    decreases v,
{
    match v {
        FrameView::Simple(text) => line_safe(encode_utf8(text)),
        FrameView::Error(text) => line_safe(encode_utf8(text)),
        FrameView::Integer(_) => true,
        FrameView::Bulk(bytes) => bytes.len() <= u64::MAX,
        FrameView::Array(items) => items.len() <= u64::MAX && forall|i: int|
            0 <= i < items.len() ==> encodable(#[trigger] items[i]),
    }
}

/// The UTF-8 form of a character other than carriage return holds no
/// carriage return byte.
pub proof fn lemma_scalar_has_no_cr(c: char)
    requires
        c != '\r',
    ensures
        forall|i: int|
            0 <= i < encode_scalar(c as u32).len() ==> #[trigger] encode_scalar(c as u32)[i] != CR,
{
    let s = c as u32;
    char_is_scalar(c);
    assert(s != 13);
    if s <= 0x7F {
        assert((s & 0x7F) as u8 != 13) by (bit_vector)
            requires
                s <= 0x7F,
                s != 13,
        ;
    }
    assert((0xC0u8 | ((s >> 6) & 0x1F) as u8) != 13) by (bit_vector);
    assert((0xE0u8 | ((s >> 12) & 0x0F) as u8) != 13) by (bit_vector);
    assert((0xF0u8 | ((s >> 18) & 0x7) as u8) != 13) by (bit_vector);
    assert((0x80u8 | (s & 0x3F) as u8) != 13) by (bit_vector);
    assert((0x80u8 | ((s >> 6) & 0x3F) as u8) != 13) by (bit_vector);
    assert((0x80u8 | ((s >> 12) & 0x3F) as u8) != 13) by (bit_vector);
}

/// The UTF-8 form of text without any carriage return holds no carriage
/// return byte.
pub proof fn lemma_text_has_no_cr(text: Seq<char>)
    requires
        forall|i: int| 0 <= i < text.len() ==> text[i] != '\r',
    ensures
        forall|i: int| 0 <= i < encode_utf8(text).len() ==> #[trigger] encode_utf8(text)[i] != CR,
    decreases text.len(),
{
    if text.len() > 0 {
        let first = encode_scalar(text[0] as u32);
        let others = encode_utf8(text.drop_first());
        lemma_scalar_has_no_cr(text[0]);
        assert forall|i: int| 0 <= i < text.drop_first().len() implies text.drop_first()[i]
            != '\r' by {
            assert(text.drop_first()[i] == text[i + 1]);
        }
        lemma_text_has_no_cr(text.drop_first());
        assert forall|i: int| 0 <= i < encode_utf8(text).len() implies #[trigger] encode_utf8(
            text,
        )[i] != CR by {
            if i < first.len() {
                assert(encode_utf8(text)[i] == first[i]);
            } else {
                assert(encode_utf8(text)[i] == others[i - first.len()]);
            }
        }
    }
}

/// Text without any carriage return can stand in a line; so can, all the
/// more, text with neither carriage return nor line feed.
pub proof fn lemma_text_without_cr_is_line_safe(text: Seq<char>)
    requires
        forall|i: int| 0 <= i < text.len() ==> text[i] != '\r',
    ensures
        line_safe(encode_utf8(text)),
{
    lemma_text_has_no_cr(text);
    let bytes = encode_utf8(text);
    assert forall|i: int| !is_crlf_at(bytes, i) by {
        if 0 <= i && i + 1 < bytes.len() {
            assert(bytes[i] != CR);
        }
    }
}

/// A line-safe text, its CR LF and anything after read back as that text.
pub proof fn lemma_line_reads_back(text: Seq<u8>, tail: Seq<u8>)
    requires
        line_safe(text),
    ensures
        next_line(text + crlf() + tail) == Ok::<(Seq<u8>, nat), CursorError>(
            (text, text.len() + 2),
        ),
        after(text + crlf() + tail, text.len() + 2) == tail,
{
    let s = text + crlf() + tail;
    let e = text.len() as int;
    assert(s[e] == CR && s[e + 1] == LF);
    assert forall|j: int| 0 <= j < e implies !is_crlf_at(s, j) by {
        if j + 1 < e {
            assert(!is_crlf_at(text, j));
            assert(s[j] == text[j] && s[j + 1] == text[j + 1]);
        } else {
            assert(s[j + 1] == CR);
        }
    }
    lemma_line_end_is_first(s, e);
    assert(s.take(e) =~= text);
    assert(after(s, (e + 2) as nat) =~= tail);
}

/// A run of digits is line-safe.
pub proof fn lemma_digits_are_line_safe(digits: Seq<u8>)
    requires
        all_digits(digits),
    ensures
        line_safe(digits),
{
    assert forall|i: int| !is_crlf_at(digits, i) by {
        if 0 <= i && i + 1 < digits.len() {
            assert(is_digit(digits[i]));
        }
    }
}

/// A length or count line reads back as the number it was written for.
pub proof fn lemma_size_reads_back(n: nat, tail: Seq<u8>)
    requires
        n <= u64::MAX,
    ensures
        next_size(decimal(n) + crlf() + tail) == Ok::<(u64, nat), CursorError>(
            (n as u64, decimal(n).len() + 2),
        ),
        after(decimal(n) + crlf() + tail, decimal(n).len() + 2) == tail,
{
    lemma_decimal_round_trip(n);
    lemma_digits_are_line_safe(decimal(n));
    lemma_line_reads_back(decimal(n), tail);
}

/// An integer line reads back as the number it was written for.
pub proof fn lemma_integer_reads_back(value: i64, tail: Seq<u8>)
    ensures
        next_integer(signed_decimal(value as int) + crlf() + tail) == Ok::<(i64, nat), CursorError>(
            (value, signed_decimal(value as int).len() + 2),
        ),
{
    let text = signed_decimal(value as int);
    lemma_signed_decimal_round_trip(value as int);
    lemma_signed_decimal_bytes(value as int);
    assert forall|i: int| !is_crlf_at(text, i) by {
        if 0 <= i && i + 1 < text.len() {
            assert(is_digit(text[i]) || text[i] == MINUS);
        }
    }
    lemma_line_reads_back(text, tail);
}

/// A text line reads back as the text it was written for.
pub proof fn lemma_text_reads_back(text: Seq<char>, tail: Seq<u8>)
    requires
        line_safe(encode_utf8(text)),
    ensures
        parse_text(encode_utf8(text) + crlf() + tail) == Ok::<(Seq<char>, nat), ParseFailure>(
            (text, encode_utf8(text).len() + 2),
        ),
{
    lemma_line_reads_back(encode_utf8(text), tail);
    encode_utf8_valid_utf8(text);
    encode_utf8_decode_utf8(text);
}

/// A length line, the payload and its CR LF read back as the payload.
pub proof fn lemma_bulk_reads_back(bytes: Seq<u8>, tail: Seq<u8>)
    requires
        bytes.len() <= u64::MAX,
    ensures
        parse_bulk(decimal(bytes.len()) + crlf() + bytes + crlf() + tail) == Ok::<
            (Seq<u8>, nat),
            ParseFailure,
        >((bytes, decimal(bytes.len()).len() + 2 + bytes.len() + 2)),
{
    let body = decimal(bytes.len()) + crlf() + bytes + crlf() + tail;
    let rest = bytes + crlf() + tail;
    let n = decimal(bytes.len()).len() + 2;
    assert(body =~= decimal(bytes.len()) + crlf() + rest);
    lemma_size_reads_back(bytes.len(), rest);
    assert(after(body, n) == rest);
    assert(rest.take(bytes.len() as int) =~= bytes);
    assert(next_slice(rest, bytes.len()) == Ok::<(Seq<u8>, nat), CursorError>(
        (bytes, bytes.len()),
    ));
    lemma_after_after(body, n, bytes.len());
    assert(after(rest, bytes.len()) =~= crlf() + tail);
    assert((crlf() + tail).take(2) =~= crlf());
}

/// A tag byte and what follows it are a frame where what follows is the
/// body that the tag calls for.
pub proof fn lemma_tagged(tag: u8, body: Seq<u8>)
    ensures
        next_byte(seq![tag] + body) == Ok::<(u8, nat), CursorError>((tag, 1)),
        after(seq![tag] + body, 1) == body,
{
    assert(after(seq![tag] + body, 1) =~= body);
}

/// A simple string or an error reads back from its wire form.
pub proof fn lemma_text_frame_decodes(v: FrameView, tail: Seq<u8>)
    requires
        v is Simple || v is Error,
        encodable(v),
    ensures
        parse_frame(encoding(v) + tail) == Ok::<(FrameView, nat), ParseFailure>(
            (v, encoding(v).len()),
        ),
{
    let text = match v {
        FrameView::Simple(text) => text,
        FrameView::Error(text) => text,
        _ => Seq::empty(),
    };
    let tag = if v is Simple {
        SIMPLE
    } else {
        ERROR
    };
    let body = encode_utf8(text) + crlf() + tail;
    assert(encoding(v) + tail =~= seq![tag] + body);
    lemma_tagged(tag, body);
    lemma_text_reads_back(text, tail);
}

/// An integer reads back from its wire form.
pub proof fn lemma_integer_frame_decodes(value: i64, tail: Seq<u8>)
    ensures
        parse_frame(encoding(FrameView::Integer(value)) + tail) == Ok::<
            (FrameView, nat),
            ParseFailure,
        >((FrameView::Integer(value), encoding(FrameView::Integer(value)).len())),
{
    let body = signed_decimal(value as int) + crlf() + tail;
    assert(encoding(FrameView::Integer(value)) + tail =~= seq![INTEGER] + body);
    lemma_tagged(INTEGER, body);
    lemma_integer_reads_back(value, tail);
}

/// A bulk string reads back from its wire form.
pub proof fn lemma_bulk_frame_decodes(bytes: Seq<u8>, tail: Seq<u8>)
    requires
        bytes.len() <= u64::MAX,
    ensures
        parse_frame(encoding(FrameView::Bulk(bytes)) + tail) == Ok::<(FrameView, nat), ParseFailure>(
            (FrameView::Bulk(bytes), encoding(FrameView::Bulk(bytes)).len()),
        ),
{
    let body = decimal(bytes.len()) + crlf() + bytes + crlf() + tail;
    assert(encoding(FrameView::Bulk(bytes)) + tail =~= seq![BULK] + body);
    lemma_tagged(BULK, body);
    lemma_bulk_reads_back(bytes, tail);
}

/// A count line and the frames after it read back where the frames do.
pub proof fn lemma_array_reads_back(items: Seq<FrameView>, tail: Seq<u8>)
    requires
        items.len() <= u64::MAX,
        parse_items(encoding_all(items) + tail, items.len()) == Ok::<
            (Seq<FrameView>, nat),
            ParseFailure,
        >((items, encoding_all(items).len())),
    ensures
        parse_array(decimal(items.len()) + crlf() + (encoding_all(items) + tail)) == Ok::<
            (Seq<FrameView>, nat),
            ParseFailure,
        >((items, decimal(items.len()).len() + 2 + encoding_all(items).len())),
{
    let rest = encoding_all(items) + tail;
    lemma_size_reads_back(items.len(), rest);
}

/// An array reads back from its wire form where its frames do.
pub proof fn lemma_array_frame_decodes(items: Seq<FrameView>, tail: Seq<u8>)
    requires
        items.len() <= u64::MAX,
        parse_items(encoding_all(items) + tail, items.len()) == Ok::<
            (Seq<FrameView>, nat),
            ParseFailure,
        >((items, encoding_all(items).len())),
    ensures
        parse_frame(encoding(FrameView::Array(items)) + tail) == Ok::<
            (FrameView, nat),
            ParseFailure,
        >((FrameView::Array(items), encoding(FrameView::Array(items)).len())),
{
    let body = decimal(items.len()) + crlf() + (encoding_all(items) + tail);
    assert(encoding(FrameView::Array(items)) + tail =~= seq![ARRAY] + body);
    lemma_tagged(ARRAY, body);
    lemma_array_reads_back(items, tail);
}

/// Decoding what `encoding` wrote, whatever follows it, gives the frame back
/// and takes exactly the bytes that were written.
pub proof fn lemma_encoding_decodes(v: FrameView, tail: Seq<u8>)
    requires
        encodable(v),
    ensures
        parse_frame(encoding(v) + tail) == Ok::<(FrameView, nat), ParseFailure>(
            (v, encoding(v).len()),
        ),
    decreases v, 1nat,
{
    match v {
        FrameView::Simple(_) => {
            lemma_text_frame_decodes(v, tail);
        },
        FrameView::Error(_) => {
            lemma_text_frame_decodes(v, tail);
        },
        FrameView::Integer(value) => {
            lemma_integer_frame_decodes(value, tail);
        },
        FrameView::Bulk(bytes) => {
            lemma_bulk_frame_decodes(bytes, tail);
        },
        FrameView::Array(items) => {
            lemma_encoding_all_decodes(items, tail);
            lemma_array_frame_decodes(items, tail);
        },
    }
}

/// Decoding a run of frames that `encoding_all` wrote, whatever follows it,
/// gives the frames back and takes exactly the bytes that were written.
pub proof fn lemma_encoding_all_decodes(items: Seq<FrameView>, tail: Seq<u8>)
    requires
        forall|i: int| 0 <= i < items.len() ==> encodable(#[trigger] items[i]),
    ensures
        parse_items(encoding_all(items) + tail, items.len()) == Ok::<
            (Seq<FrameView>, nat),
            ParseFailure,
        >((items, encoding_all(items).len())),
    decreases items, 0nat,
{
    if items.len() == 0 {
        assert(items =~= Seq::<FrameView>::empty());
    } else {
        let first = items[0];
        let others = items.drop_first();
        let s = encoding_all(items) + tail;
        let rest = encoding_all(others) + tail;
        assert(s =~= encoding(first) + rest);
        lemma_encoding_decodes(first, rest);
        assert(after(s, encoding(first).len()) =~= rest);
        assert forall|i: int| 0 <= i < others.len() implies encodable(#[trigger] others[i]) by {
            assert(others[i] == items[i + 1]);
        }
        lemma_encoding_all_decodes(others, tail);
        assert(seq![first] + others =~= items);
    }
}

/// Encoding a frame and decoding the bytes gives a frame that says the same,
/// and no byte is left over.
pub proof fn lemma_round_trip(frame: Frame<'_>)
    requires
        encodable(frame@),
    ensures
        parse_frame(encoding(frame@)) == Ok::<(FrameView, nat), ParseFailure>(
            (frame@, encoding(frame@).len()),
        ),
{
    lemma_encoding_decodes(frame@, Seq::empty());
    assert(encoding(frame@) + Seq::<u8>::empty() =~= encoding(frame@));
}

/// A bulk string whose payload of the declared length is there, with two
/// bytes after it that are not CR LF, is refused with `SizeMismatch` of that
/// length. `len` is what the length line declares and `n` how long that line is.
pub proof fn lemma_bulk_size_mismatch(s: Seq<u8>, len: u64, n: nat)
    requires
        s.len() > 0,
        s[0] == BULK,
        next_size(after(s, 1)) == Ok::<(u64, nat), CursorError>((len, n)),
        n + len + 2 <= after(s, 1).len(),
        after(s, 1).subrange(n + len, n + len + 2) != crlf(),
    ensures
        parse_frame(s) == Err::<(FrameView, nat), ParseFailure>(ParseFailure::SizeMismatch(len)),
{
    let body = after(s, 1);
    lemma_after_after(body, n, len as nat);
    assert(after(body, n + len as nat).take(2) =~= body.subrange(n + len, n + len + 2));
}

/// Where the first `done` frames of a run are had and the frame after them
/// fails, a longer run fails as that frame does.
pub proof fn lemma_run_fails_as_its_first_failure(s: Seq<u8>, done: nat, count: nat)
    requires
        done < count,
        parse_items(s, done) matches Ok((_, used)) && parse_frame(after(s, used)) is Err,
    ensures
        parse_items(s, count) == Err::<(Seq<FrameView>, nat), ParseFailure>(
            parse_frame(after(s, parse_items(s, done)->Ok_0.1))->Err_0,
        ),
    decreases done,
{
    if done == 0 {
        assert(after(s, 0) =~= s);
    } else {
        let n = parse_frame(s)->Ok_0.1;
        let k = parse_items(after(s, n), (done - 1) as nat)->Ok_0.1;
        lemma_parse_frame_in_bounds(s);
        lemma_after_after(s, n, k);
        lemma_run_fails_as_its_first_failure(after(s, n), (done - 1) as nat, (count - 1) as nat);
    }
}

/// An array whose declared count does not match the frames that can be had,
/// because the frame after the first `done` of them is refused, is refused
/// with `SizeMismatch` of the declared count. `n` is how long the count line
/// is.
pub proof fn lemma_array_count_mismatch(s: Seq<u8>, count: u64, n: nat, done: nat)
    requires
        s.len() > 0,
        s[0] == ARRAY,
        next_size(after(s, 1)) == Ok::<(u64, nat), CursorError>((count, n)),
        done < count,
        parse_items(after(after(s, 1), n), done) matches Ok((_, used)) && (parse_frame(
            after(after(after(s, 1), n), used),
        ) matches Err(e) && !e.is_incomplete()),
    ensures
        parse_frame(s) == Err::<(FrameView, nat), ParseFailure>(ParseFailure::SizeMismatch(count)),
{
    lemma_run_fails_as_its_first_failure(after(after(s, 1), n), done, count as nat);
}

/// The frames of an array that was decoded are as many as its count line
/// declared: a count that the frames do not match never decodes.
pub proof fn lemma_array_count_matches(s: Seq<u8>)
    ensures
        parse_array(s) matches Ok((items, _)) ==> items.len() == next_size(s)->Ok_0.0,
{
    if let Ok((count, n)) = next_size(s) {
        lemma_parse_items_in_bounds(after(s, n), count as nat);
    }
}

/// A first byte that is none of the five type tags is refused with
/// `FrameType` of that byte.
pub proof fn lemma_unknown_tag(s: Seq<u8>)
    requires
        s.len() > 0,
        s[0] != SIMPLE && s[0] != ERROR && s[0] != INTEGER && s[0] != BULK && s[0] != ARRAY,
    ensures
        parse_frame(s) == Err::<(FrameView, nat), ParseFailure>(ParseFailure::FrameType(s[0])),
{
}

/// A line that is whole stays the same line when more bytes follow.
pub proof fn lemma_line_is_final(s: Seq<u8>, more: Seq<u8>)
    requires
        next_line(s) is Ok,
    ensures
        next_line(s + more) == next_line(s),
        next_size(s + more) == next_size(s),
        next_integer(s + more) == next_integer(s),
        parse_text(s + more) == parse_text(s),
{
    let e = line_end(s)->Some_0;
    lemma_line_end_in_bounds(s);
    lemma_line_end_from(s, 0);
    let t = s + more;
    assert(is_crlf_at(t, e));
    assert forall|j: int| 0 <= j < e implies !is_crlf_at(t, j) by {
        assert(!is_crlf_at(s, j));
        assert(t[j] == s[j] && t[j + 1] == s[j + 1]);
    }
    lemma_line_end_is_first(t, e);
    assert(t.take(e) =~= s.take(e));
}

/// Bytes after the first `n` of a sequence are followed by whatever follows
/// the sequence.
pub proof fn lemma_after_of_longer(s: Seq<u8>, more: Seq<u8>, n: nat)
    requires
        n <= s.len(),
    ensures
        after(s + more, n) == after(s, n) + more,
{
    assert(after(s + more, n) =~= after(s, n) + more);
}

/// A bulk string that is whole, or refused for its length, stays so when
/// more bytes follow.
pub proof fn lemma_bulk_is_final(s: Seq<u8>, more: Seq<u8>)
    requires
        !(parse_bulk(s) matches Err(e) && e.is_incomplete()),
    ensures
        parse_bulk(s + more) == parse_bulk(s),
{
    lemma_line_is_final(s, more);
    lemma_line_end_in_bounds(s);
    if let Ok((len, n)) = next_size(s) {
        lemma_after_of_longer(s, more, n);
        let body = after(s, n);
        if let Ok((payload, k)) = next_slice(body, len as nat) {
            assert((body + more).take(len as int) =~= body.take(len as int));
            lemma_after_after(s, n, k);
            lemma_after_after(s + more, n, k);
            lemma_after_of_longer(body, more, k);
            let tail = after(s, n + k);
            assert(after(s + more, n + k) == tail + more);
            if tail.len() >= 2 {
                assert((tail + more).take(2) =~= tail.take(2));
            }
        }
    }
}

/// What the grammar says of the bytes that have arrived is final, unless it
/// says that they end before the frame does: bytes that arrive later change
/// neither a frame that is whole nor a refusal.
pub proof fn lemma_verdict_is_final(s: Seq<u8>, more: Seq<u8>)
    requires
        !(parse_frame(s) matches Err(e) && e.is_incomplete()),
    ensures
        parse_frame(s + more) == parse_frame(s),
    decreases s.len(), 0nat,
{
    let body = after(s, 1);
    lemma_after_of_longer(s, more, 1);
    assert((s + more)[0] == s[0]);
    let tag = s[0];
    if tag == SIMPLE || tag == ERROR {
        lemma_line_is_final(body, more);
    } else if tag == INTEGER {
        lemma_line_is_final(body, more);
    } else if tag == BULK {
        lemma_bulk_is_final(body, more);
    } else if tag == ARRAY {
        lemma_line_is_final(body, more);
        lemma_line_end_in_bounds(body);
        if let Ok((count, n)) = next_size(body) {
            lemma_after_of_longer(body, more, n);
            lemma_items_verdict_is_final(after(body, n), count as nat, more);
        }
    }
}

/// What the grammar says of a run of frames is final in the same way.
pub proof fn lemma_items_verdict_is_final(s: Seq<u8>, count: nat, more: Seq<u8>)
    requires
        !(parse_items(s, count) matches Err(e) && e.is_incomplete()),
    ensures
        parse_items(s + more, count) == parse_items(s, count),
    decreases s.len(), count + 1,
{
    if count > 0 {
        lemma_verdict_is_final(s, more);
        if let Ok((_, n)) = parse_frame(s) {
            lemma_parse_frame_in_bounds(s);
            lemma_after_of_longer(s, more, n);
            lemma_items_verdict_is_final(after(s, n), (count - 1) as nat, more);
        }
    }
}

} // verus!
