//! Putting the tokens of an input together again.

use vstd::prelude::*;
use crate::scan_lemmas::lemma_unescape_shift;
use crate::token::{emit, escape_at, scan, spans_of, unescape, unescape_from, Span, DELIMITER};

verus! {

/// What a span gives back when the input is put together again: a text span
/// as it is, a directive span as what it says between two delimiters.
pub open spec fn piece(bytes: Seq<u8>, span: Span) -> Seq<u8> {
    let part = bytes.subrange(span.start, span.end);
    if span.attr {
        seq![DELIMITER] + unescape(part) + seq![DELIMITER]
    } else {
        part
    }
}

/// The spans put together again, one piece after another.
pub open spec fn joined(bytes: Seq<u8>, spans: Seq<Span>) -> Seq<u8>
    decreases spans.len(),
{
    if spans.len() == 0 {
        Seq::empty()
    } else {
        piece(bytes, spans[0]) + joined(bytes, spans.drop_first())
    }
}

/// The input from `pos` on with every escaped pair inside a directive region
/// folded into one delimiter, and nothing else changed.
pub open spec fn folded_from(bytes: Seq<u8>, attr: bool, pos: int) -> Seq<u8>
    decreases bytes.len() - pos,
{
    if pos < 0 || pos >= bytes.len() {
        Seq::empty()
    } else if attr && escape_at(bytes, pos) {
        seq![DELIMITER] + folded_from(bytes, true, pos + 2)
    } else if bytes[pos] == DELIMITER {
        seq![DELIMITER] + folded_from(bytes, !attr, pos + 1)
    } else {
        seq![bytes[pos]] + folded_from(bytes, attr, pos + 1)
    }
}

/// The whole input with the escaped pairs of its directive regions folded.
pub open spec fn folded(bytes: Seq<u8>) -> Seq<u8> {
    folded_from(bytes, false, 0)
}

/// True when, from `pos` on, every directive region is closed by a delimiter
/// and none is empty; the region open at `pos` began at `start`.
pub open spec fn regions_closed_from(bytes: Seq<u8>, attr: bool, start: int, pos: int) -> bool
    decreases bytes.len() - pos,
{
    if pos < 0 || pos >= bytes.len() {
        !attr
    } else if bytes[pos] != DELIMITER {
        regions_closed_from(bytes, attr, start, pos + 1)
    } else if attr && escape_at(bytes, pos) {
        regions_closed_from(bytes, true, start, pos + 2)
    } else {
        (attr ==> start < pos) && regions_closed_from(bytes, !attr, pos + 1, pos + 1)
    }
}

/// True when every directive region of the input is closed and none is
/// empty.
pub open spec fn regions_closed(bytes: Seq<u8>) -> bool {
    regions_closed_from(bytes, false, 0, 0)
}

/// Where the directive region that is open at `pos` ends: at the first
/// delimiter that is not part of an escaped pair, or with the input.
pub open spec fn region_end(bytes: Seq<u8>, pos: int) -> int
    decreases bytes.len() - pos,
{
    if pos < 0 || pos >= bytes.len() {
        bytes.len() as int
    } else if escape_at(bytes, pos) {
        region_end(bytes, pos + 2)
    } else if bytes[pos] == DELIMITER {
        pos
    } else {
        region_end(bytes, pos + 1)
    }
}

proof fn lemma_region_end_bounds(bytes: Seq<u8>, pos: int)
    requires
        0 <= pos <= bytes.len(),
    ensures
        pos <= region_end(bytes, pos) <= bytes.len(),
    decreases bytes.len() - pos,
{
    if pos < bytes.len() {
        if escape_at(bytes, pos) {
            lemma_region_end_bounds(bytes, pos + 2);
        } else if bytes[pos] != DELIMITER {
            lemma_region_end_bounds(bytes, pos + 1);
        }
    }
}

/// Folding the part of the input from `pos` to `end` begins with what stands
/// at `pos`: the one delimiter of an escaped pair, or the byte itself.
proof fn lemma_unescape_step(bytes: Seq<u8>, pos: int, end: int)
    requires
        0 <= pos < end <= bytes.len(),
    ensures
        escape_at(bytes, pos) && pos + 2 <= end ==> unescape(bytes.subrange(pos, end)) == seq![
            DELIMITER,
        ] + unescape(bytes.subrange(pos + 2, end)),
        bytes[pos] != DELIMITER ==> unescape(bytes.subrange(pos, end)) == seq![bytes[pos]]
            + unescape(bytes.subrange(pos + 1, end)),
{
    let raw = bytes.subrange(pos, end);
    assert(raw[0] == bytes[pos]);
    if escape_at(bytes, pos) && pos + 2 <= end {
        assert(raw[1] == bytes[pos + 1]);
        assert(escape_at(raw, 0));
        assert(bytes.subrange(pos + 2, end) =~= raw.subrange(2, raw.len() as int));
        lemma_unescape_shift(raw, bytes.subrange(pos + 2, end), 2, 0);
    }
    if bytes[pos] != DELIMITER {
        assert(!escape_at(raw, 0));
        assert(bytes.subrange(pos + 1, end) =~= raw.subrange(1, raw.len() as int));
        lemma_unescape_shift(raw, bytes.subrange(pos + 1, end), 1, 0);
    }
}

/// One span and then others, put together, is the span's piece and then the
/// others put together; no span adds nothing.
proof fn lemma_joined_after(bytes: Seq<u8>, head: Seq<Span>, rest: Seq<Span>)
    requires
        head.len() <= 1,
    ensures
        joined(bytes, head + rest) == (if head.len() == 1 {
            piece(bytes, head[0])
        } else {
            Seq::empty()
        }) + joined(bytes, rest),
{
    if head.len() == 1 {
        assert((head + rest)[0] == head[0]);
        assert((head + rest).drop_first() =~= rest);
    } else {
        assert(head + rest =~= rest);
        assert(Seq::<u8>::empty() + joined(bytes, rest) =~= joined(bytes, rest));
    }
}

/// The spans that a scan still produces, put together, are what the open
/// region has given so far and then the rest of the input, folded. For a
/// directive region, `said` is what the part already read says.
proof fn lemma_joined_scan(bytes: Seq<u8>, attr: bool, start: int, pos: int, said: Seq<u8>)
    requires
        0 <= start <= pos <= bytes.len(),
        regions_closed_from(bytes, attr, start, pos),
        attr ==> unescape(bytes.subrange(start, region_end(bytes, pos))) == said + unescape(
            bytes.subrange(pos, region_end(bytes, pos)),
        ),
    ensures
        joined(bytes, scan(bytes, attr, start, pos)) == (if attr {
            seq![DELIMITER] + said
        } else {
            bytes.subrange(start, pos)
        }) + folded_from(bytes, attr, pos),
    decreases bytes.len() - pos,
{
    let len = bytes.len() as int;
    let spans = scan(bytes, attr, start, pos);
    let end = region_end(bytes, pos);
    lemma_region_end_bounds(bytes, pos);
    if pos >= len {
        lemma_joined_after(bytes, spans, Seq::empty());
        assert(spans + Seq::<Span>::empty() =~= spans);
        assert(joined(bytes, spans) =~= bytes.subrange(start, pos) + folded_from(
            bytes,
            attr,
            pos,
        ));
    } else if bytes[pos] != DELIMITER {
        let byte = seq![bytes[pos]];
        if attr {
            lemma_region_end_bounds(bytes, pos + 1);
            lemma_unescape_step(bytes, pos, end);
            assert(said + (byte + unescape(bytes.subrange(pos + 1, end))) =~= (said + byte)
                + unescape(bytes.subrange(pos + 1, end)));
            lemma_joined_scan(bytes, attr, start, pos + 1, said + byte);
            assert((seq![DELIMITER] + (said + byte)) + folded_from(bytes, attr, pos + 1) =~= (
            seq![DELIMITER] + said) + (byte + folded_from(bytes, attr, pos + 1)));
        } else {
            lemma_joined_scan(bytes, attr, start, pos + 1, said);
            assert(bytes.subrange(start, pos + 1) + folded_from(bytes, attr, pos + 1)
                =~= bytes.subrange(start, pos) + (byte + folded_from(bytes, attr, pos + 1)));
        }
    } else if attr && escape_at(bytes, pos) {
        let one = seq![DELIMITER];
        lemma_region_end_bounds(bytes, pos + 2);
        lemma_unescape_step(bytes, pos, end);
        assert(said + (one + unescape(bytes.subrange(pos + 2, end))) =~= (said + one) + unescape(
            bytes.subrange(pos + 2, end),
        ));
        lemma_joined_scan(bytes, true, start, pos + 2, said + one);
        assert((one + (said + one)) + folded_from(bytes, true, pos + 2) =~= (one + said) + (one
            + folded_from(bytes, true, pos + 2)));
    } else {
        let one = seq![DELIMITER];
        let head = emit(attr, start, pos);
        let rest = scan(bytes, !attr, pos + 1, pos + 1);
        let after = folded_from(bytes, !attr, pos + 1);
        assert(spans == head + rest);
        lemma_joined_after(bytes, head, rest);
        if attr {
            assert(end == pos);
            assert(unescape(bytes.subrange(pos, pos)) =~= Seq::<u8>::empty());
            assert(unescape(bytes.subrange(start, pos)) =~= said);
            lemma_joined_scan(bytes, false, pos + 1, pos + 1, said);
            assert(bytes.subrange(pos + 1, pos + 1) + after =~= after);
            assert((one + said + one) + after =~= (one + said) + (one + after));
        } else {
            lemma_region_end_bounds(bytes, pos + 1);
            let empty = Seq::<u8>::empty();
            assert(empty + unescape(bytes.subrange(pos + 1, region_end(bytes, pos + 1)))
                =~= unescape(bytes.subrange(pos + 1, region_end(bytes, pos + 1))));
            lemma_joined_scan(bytes, true, pos + 1, pos + 1, empty);
            assert(bytes.subrange(start, pos) =~= (if head.len() == 1 {
                piece(bytes, head[0])
            } else {
                empty
            }));
            assert(bytes.subrange(start, pos) + ((one + empty) + after) =~= bytes.subrange(
                start,
                pos,
            ) + (one + after));
        }
    }
}

/// Putting the tokens of an input together again, each directive as what it
/// says between two delimiters, gives the input with the escaped pairs of its
/// directive regions folded. This holds of the inputs in which every
/// directive region is closed and none is empty: an empty region leaves no
/// token, and an open one gains a closing delimiter.
pub proof fn lemma_tokens_rejoin(bytes: Seq<u8>)
    requires
        regions_closed(bytes),
    ensures
        joined(bytes, spans_of(bytes)) == folded(bytes),
{
    lemma_joined_scan(bytes, false, 0, 0, Seq::empty());
    assert(bytes.subrange(0, 0) + folded(bytes) =~= folded(bytes));
}

} // verus!
