//! What holds of the spans of every input.

use vstd::prelude::*;
use vstd::string::*;
use vstd::utf8::*;
use crate::boundary::{lemma_ascii_byte_absent, lemma_same_bytes_same_text};
use crate::token::{
    emit, escape, escape_at, scan, spans_of, spans_view, unescape, unescape_from, Span, Token,
    DELIMITER,
};

verus! {

/// True when no byte of `bytes` from `from` on is the delimiter.
pub open spec fn delimiter_free(bytes: Seq<u8>, from: int) -> bool {
    forall|i: int| from <= i < bytes.len() ==> bytes[i] != DELIMITER
}

/// Without a delimiter ahead, the open region runs to the end of the input.
pub proof fn lemma_scan_without_delimiter(bytes: Seq<u8>, attr: bool, start: int, pos: int)
    requires
        0 <= pos,
        delimiter_free(bytes, pos),
    ensures
        scan(bytes, attr, start, pos) == seq![Span { attr, start, end: bytes.len() as int }],
    decreases bytes.len() - pos,
{
    if pos < bytes.len() {
        lemma_scan_without_delimiter(bytes, attr, start, pos + 1);
    }
}

/// An input without a delimiter is one text span that covers all of it.
pub proof fn lemma_plain_input_is_one_span(bytes: Seq<u8>)
    requires
        delimiter_free(bytes, 0),
    ensures
        spans_of(bytes) == seq![Span { attr: false, start: 0, end: bytes.len() as int }],
{
    lemma_scan_without_delimiter(bytes, false, 0, 0);
}

/// A text in which no character is a backslash is one text token, and that
/// token is the whole text.
pub proof fn lemma_plain_text_is_one_token(text: &str, tokens: Seq<Token<'_>>)
    requires
        forall|i: int| 0 <= i < text@.len() ==> text@[i] != '\\',
        spans_view(tokens) == spans_of(text.spec_bytes()),
        forall|k: int| 0 <= k < tokens.len() ==> (#[trigger] tokens[k]).cut_from(text.spec_bytes()),
    ensures
        tokens.len() == 1,
        !tokens[0].attr,
        tokens[0].start == 0,
        tokens[0].slice@ == text@,
{
    let bytes = text.spec_bytes();
    assert forall|i: int| 0 <= i < text@.len() implies text@[i] as u32 != DELIMITER as u32 by {
        assert(text@[i] != '\\');
        assert('\\' as u32 == 0x5C);
        char_u32_cast(text@[i], text@[i] as u32);
    }
    lemma_ascii_byte_absent(text@, DELIMITER);
    lemma_plain_input_is_one_span(bytes);
    assert(spans_view(tokens).len() == 1);
    assert(spans_view(tokens)[0] == tokens[0].span());
    assert(tokens[0].cut_from(bytes));
    assert(tokens[0].slice.spec_bytes() =~= bytes);
    lemma_same_bytes_same_text(tokens[0].slice@, text@);
}

/// True when the spans lie in order inside `0..len`, none overlaps or touches
/// the next, all begin at or after `from`, only the last may be empty, and
/// the last ends where the input ends.
pub open spec fn ordered_spans(spans: Seq<Span>, from: int, len: int) -> bool {
    &&& spans.len() >= 1
    &&& spans.last().end == len
    &&& forall|k: int| 0 <= k < spans.len() ==> from <= (#[trigger] spans[k]).start <= spans[k].end <= len
    &&& forall|k: int| 0 <= k < spans.len() - 1 ==> (#[trigger] spans[k]).start < spans[k].end
    &&& forall|i: int, j: int| 0 <= i < j < spans.len() ==> (#[trigger] spans[i]).end < (#[trigger] spans[j]).start
}

/// The spans that a scan still produces are ordered and begin no earlier than
/// the open region.
pub proof fn lemma_scan_ordered(bytes: Seq<u8>, attr: bool, start: int, pos: int)
    requires
        0 <= start <= pos <= bytes.len(),
    ensures
        ordered_spans(scan(bytes, attr, start, pos), start, bytes.len() as int),
    decreases bytes.len() - pos,
{
    if pos >= bytes.len() {
    } else if bytes[pos] != DELIMITER {
        lemma_scan_ordered(bytes, attr, start, pos + 1);
    } else if attr && escape_at(bytes, pos) {
        lemma_scan_ordered(bytes, true, start, pos + 2);
    } else {
        lemma_scan_ordered(bytes, !attr, pos + 1, pos + 1);
        let head = emit(attr, start, pos);
        let rest = scan(bytes, !attr, pos + 1, pos + 1);
        let all = head + rest;
        assert(scan(bytes, attr, start, pos) == all);
        assert forall|k: int| 0 <= k < all.len() implies all[k] == (if k < head.len() {
            head[k]
        } else {
            rest[k - head.len()]
        }) by {}
        assert(all.last() == rest.last());
    }
}

/// The spans of an input begin at strictly increasing offsets; none overlaps
/// another, and only the last may be empty.
pub proof fn lemma_spans_ordered(bytes: Seq<u8>)
    ensures
        ordered_spans(spans_of(bytes), 0, bytes.len() as int),
        forall|i: int, j: int| 0 <= i < j < spans_of(bytes).len() ==> (#[trigger] spans_of(bytes)[i]).start < (#[trigger] spans_of(bytes)[j]).start,
{
    lemma_scan_ordered(bytes, false, 0, 0);
}

/// True when the byte at offset `at` lies inside one of the spans.
pub open spec fn covered(spans: Seq<Span>, at: int) -> bool {
    exists|k: int| 0 <= k < spans.len() && (#[trigger] spans[k]).start <= at < spans[k].end
}

/// Every byte from the start of the open region on that is not a delimiter
/// lies inside one of the spans that the scan still produces.
pub proof fn lemma_scan_covers(bytes: Seq<u8>, attr: bool, start: int, pos: int)
    requires
        0 <= start <= pos <= bytes.len(),
    ensures
        forall|at: int|
            start <= at < bytes.len() && bytes[at] != DELIMITER ==> covered(
                scan(bytes, attr, start, pos),
                at,
            ),
    decreases bytes.len() - pos,
{
    let spans = scan(bytes, attr, start, pos);
    if pos >= bytes.len() {
        assert forall|at: int| start <= at < bytes.len() && bytes[at] != DELIMITER implies covered(
            spans,
            at,
        ) by {
            assert(spans[0].start <= at < spans[0].end);
        }
    } else if bytes[pos] != DELIMITER {
        lemma_scan_covers(bytes, attr, start, pos + 1);
    } else if attr && escape_at(bytes, pos) {
        lemma_scan_covers(bytes, true, start, pos + 2);
    } else {
        let head = emit(attr, start, pos);
        let rest = scan(bytes, !attr, pos + 1, pos + 1);
        lemma_scan_covers(bytes, !attr, pos + 1, pos + 1);
        assert(spans == head + rest);
        assert forall|at: int| start <= at < bytes.len() && bytes[at] != DELIMITER implies covered(
            spans,
            at,
        ) by {
            if at < pos {
                assert(spans[0] == head[0]);
                assert(spans[0].start <= at < spans[0].end);
            } else {
                assert(covered(rest, at));
                let k = choose|k: int|
                    0 <= k < rest.len() && (#[trigger] rest[k]).start <= at < rest[k].end;
                assert(spans[k + head.len()] == rest[k]);
                assert(spans[k + head.len()].start <= at < spans[k + head.len()].end);
            }
        }
    }
}

/// Only delimiters are left out: every other byte of the input lies inside
/// one of its spans.
pub proof fn lemma_spans_cover(bytes: Seq<u8>)
    ensures
        forall|at: int|
            0 <= at < bytes.len() && bytes[at] != DELIMITER ==> covered(spans_of(bytes), at),
{
    lemma_scan_covers(bytes, false, 0, 0);
}

/// Folding the escaped pairs of an escaped text gives the text back: each
/// doubled delimiter becomes the one delimiter it stands for.
pub proof fn lemma_unescape_escape(literal: Seq<u8>)
    ensures
        unescape(escape(literal)) == literal,
    decreases literal.len(),
{
    if literal.len() > 0 {
        let raw = escape(literal);
        let rest = escape(literal.drop_first());
        lemma_unescape_escape(literal.drop_first());
        if literal[0] == DELIMITER {
            assert(escape_at(raw, 0));
            assert(rest =~= raw.subrange(2, raw.len() as int));
            lemma_unescape_shift(raw, rest, 2, 0);
        } else {
            assert(!escape_at(raw, 0));
            assert(rest =~= raw.subrange(1, raw.len() as int));
            lemma_unescape_shift(raw, rest, 1, 0);
        }
        assert(seq![literal[0]] + literal.drop_first() =~= literal);
    }
}

/// Folding reads a span the same way wherever the span stands.
pub proof fn lemma_unescape_shift(raw: Seq<u8>, tail: Seq<u8>, by: int, pos: int)
    requires
        0 <= by <= raw.len(),
        0 <= pos,
        tail == raw.subrange(by, raw.len() as int),
    ensures
        unescape_from(raw, by + pos) == unescape_from(tail, pos),
    decreases tail.len() - pos,
{
    if pos < tail.len() {
        assert(tail[pos] == raw[by + pos]);
        if pos + 1 < tail.len() {
            assert(tail[pos + 1] == raw[by + pos + 1]);
        }
        if escape_at(tail, pos) {
            lemma_unescape_shift(raw, tail, by, pos + 2);
        } else {
            lemma_unescape_shift(raw, tail, by, pos + 1);
        }
    }
}

/// True when the directive region that is open at `pos` is closed there: the
/// input ends, or a delimiter stands at `pos` that is not the first of an
/// escaped pair.
pub open spec fn region_closes_at(bytes: Seq<u8>, pos: int) -> bool {
    pos == bytes.len() || (0 <= pos < bytes.len() && bytes[pos] == DELIMITER && !escape_at(
        bytes,
        pos,
    ))
}

/// The spans that follow a directive region which began at `start` and is
/// closed at `end`: the region as one span, unless it is empty, then what the
/// text after the closing delimiter gives. A region that the end of the input
/// closes is the last span.
pub open spec fn after_region(bytes: Seq<u8>, start: int, end: int) -> Seq<Span> {
    if end == bytes.len() {
        seq![Span { attr: true, start, end }]
    } else {
        emit(true, start, end) + scan(bytes, false, end + 1, end + 1)
    }
}

/// Reading on inside a directive region whose remaining text is an escaped
/// literal never closes the region before that text ends.
proof fn lemma_scan_escaped(bytes: Seq<u8>, start: int, pos: int, literal: Seq<u8>)
    requires
        0 <= pos,
        pos + escape(literal).len() <= bytes.len(),
        bytes.subrange(pos, pos + escape(literal).len()) == escape(literal),
        region_closes_at(bytes, pos + escape(literal).len()),
    ensures
        scan(bytes, true, start, pos) == after_region(bytes, start, pos + escape(literal).len()),
    decreases literal.len(),
{
    let raw = escape(literal);
    if literal.len() > 0 {
        let rest = escape(literal.drop_first());
        assert(bytes[pos] == raw[0]);
        if literal[0] == DELIMITER {
            assert(bytes[pos + 1] == raw[1]);
            assert(escape_at(bytes, pos));
            assert(bytes.subrange(pos + 2, pos + 2 + rest.len()) =~= rest) by {
                assert forall|i: int| 0 <= i < rest.len() implies bytes[pos + 2 + i] == rest[i] by {
                    assert(bytes[pos + 2 + i] == raw[2 + i]);
                }
            }
            lemma_scan_escaped(bytes, start, pos + 2, literal.drop_first());
        } else {
            assert(bytes.subrange(pos + 1, pos + 1 + rest.len()) =~= rest) by {
                assert forall|i: int| 0 <= i < rest.len() implies bytes[pos + 1 + i] == rest[i] by {
                    assert(bytes[pos + 1 + i] == raw[1 + i]);
                }
            }
            lemma_scan_escaped(bytes, start, pos + 1, literal.drop_first());
        }
    }
}

/// A directive region written as an escaped literal is one span, however
/// many doubled delimiters it holds, and that span says the literal.
pub proof fn lemma_escaped_region_is_one_span(bytes: Seq<u8>, start: int, literal: Seq<u8>)
    requires
        0 <= start,
        start + escape(literal).len() <= bytes.len(),
        bytes.subrange(start, start + escape(literal).len()) == escape(literal),
        region_closes_at(bytes, start + escape(literal).len()),
    ensures
        scan(bytes, true, start, start) == after_region(
            bytes,
            start,
            start + escape(literal).len(),
        ),
        unescape(bytes.subrange(start, start + escape(literal).len())) == literal,
{
    lemma_scan_escaped(bytes, start, start, literal);
    lemma_unescape_escape(literal);
}

} // verus!
