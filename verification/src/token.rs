//! The tokenizer: one forward pass over the bytes of the input.
//!
//! A single delimiter byte toggles between plain text and directive regions.
//! Inside a directive region a doubled delimiter stands for one literal
//! delimiter and does not close the region.

use vstd::prelude::*;
use vstd::string::*;
use vstd::utf8::*;
use crate::boundary::{lemma_ascii_boundaries, lemma_encode_concat, slice_between};
use crate::scan_lemmas::{lemma_plain_text_is_one_token, lemma_spans_ordered, ordered_spans};

verus! {

/// The delimiter, a backslash. It is a one-byte character in UTF-8, and no
/// byte of a longer encoding equals it.
pub const DELIMITER: u8 = 0x5C;

/// A region of the input: its kind and the byte offsets it covers.
pub struct Span {
    pub attr: bool,
    pub start: int,
    pub end: int,
}

/// The span from `start` to `end`, unless it is empty.
pub open spec fn emit(attr: bool, start: int, end: int) -> Seq<Span> {
    if start < end {
        seq![Span { attr, start, end }]
    } else {
        Seq::empty()
    }
}

/// True where an escaped pair begins at `pos`: two delimiters in a row.
pub open spec fn escape_at(bytes: Seq<u8>, pos: int) -> bool {
    &&& 0 <= pos
    &&& pos + 1 < bytes.len()
    &&& bytes[pos] == DELIMITER
    &&& bytes[pos + 1] == DELIMITER
}

/// The spans that remain to be produced when the region that began at `start`
/// has been read up to `pos`.
pub open spec fn scan(bytes: Seq<u8>, attr: bool, start: int, pos: int) -> Seq<Span>
    decreases bytes.len() - pos,
{
    if pos < 0 || pos >= bytes.len() {
        seq![Span { attr, start, end: bytes.len() as int }]
    } else if bytes[pos] != DELIMITER {
        scan(bytes, attr, start, pos + 1)
    } else if attr && escape_at(bytes, pos) {
        scan(bytes, true, start, pos + 2)
    } else {
        emit(attr, start, pos) + scan(bytes, !attr, pos + 1, pos + 1)
    }
}

/// The spans of a whole input.
pub open spec fn spans_of(bytes: Seq<u8>) -> Seq<Span> {
    scan(bytes, false, 0, 0)
}

/// What a directive span says from `pos` on, once every escaped pair has
/// been folded into the one delimiter it stands for.
pub open spec fn unescape_from(raw: Seq<u8>, pos: int) -> Seq<u8>
    decreases raw.len() - pos,
{
    if pos < 0 || pos >= raw.len() {
        Seq::empty()
    } else if escape_at(raw, pos) {
        seq![DELIMITER] + unescape_from(raw, pos + 2)
    } else {
        seq![raw[pos]] + unescape_from(raw, pos + 1)
    }
}

/// What a directive span says: the span with every escaped pair folded.
pub open spec fn unescape(raw: Seq<u8>) -> Seq<u8> {
    unescape_from(raw, 0)
}

/// How a directive has to be written for it to say `literal`: every
/// delimiter doubled.
pub open spec fn escape(literal: Seq<u8>) -> Seq<u8>
    decreases literal.len(),
{
    if literal.len() == 0 {
        Seq::empty()
    } else if literal[0] == DELIMITER {
        seq![DELIMITER, DELIMITER] + escape(literal.drop_first())
    } else {
        seq![literal[0]] + escape(literal.drop_first())
    }
}

/// One span of the input, as the tokenizer hands it out.
#[derive(Clone, Copy, Debug, PartialEq, Eq)]
pub struct Token<'a> {
    /// Whether the span lies in a directive region.
    pub attr: bool,
    /// The span itself, borrowed from the input.
    pub slice: &'a str,
    /// The byte offset in the input at which the span begins.
    pub start: usize,
}

impl<'a> Token<'a> {
    /// The byte offset at which the span ends.
    pub open spec fn end(&self) -> int {
        self.start + self.slice.spec_bytes().len()
    }

    /// The token as a region of the input it was cut from.
    pub open spec fn span(&self) -> Span {
        Span { attr: self.attr, start: self.start as int, end: self.end() }
    }

    /// What the token says, as text: its span with escaped pairs folded.
    pub open spec fn content_view(&self) -> Seq<char> {
        decode_utf8(unescape(self.slice.spec_bytes()))
    }

    /// True when the token is the part of `bytes` that its offsets name, and
    /// both offsets are character boundaries.
    pub open spec fn cut_from(&self, bytes: Seq<u8>) -> bool {
        &&& self.end() <= bytes.len()
        &&& self.slice.spec_bytes() == bytes.subrange(self.start as int, self.end())
        &&& is_char_boundary(bytes, self.start as int)
        &&& is_char_boundary(bytes, self.end())
    }

    /// What the token says: its span, with every doubled delimiter folded
    /// into one.
    pub fn content(&self) -> (content: String)
        ensures
            encode_utf8(content@) == unescape(self.slice.spec_bytes()),
            content@ == self.content_view(),
    {
        let text = self.slice;
        let bytes = text.as_bytes();
        let len = bytes.len();
        let mut content = String::new();
        let mut piece_start: usize = 0;
        let mut index: usize = 0;
        proof {
            encode_utf8_valid_utf8(text@);
            is_char_boundary_start_end_of_seq(bytes@);
            assert(encode_utf8(content@) + bytes@.subrange(0, 0) + unescape_from(bytes@, 0)
                =~= unescape(bytes@));
        }
        while index < len
            invariant
                bytes@ == text.spec_bytes(),
                len == bytes@.len(),
                valid_utf8(bytes@),
                piece_start <= index <= len,
                is_char_boundary(bytes@, piece_start as int),
                is_char_boundary(bytes@, len as int),
                encode_utf8(content@) + bytes@.subrange(piece_start as int, index as int)
                    + unescape_from(bytes@, index as int) == unescape(bytes@),
            decreases len - index,
        {
            let ghost done = encode_utf8(content@);
            let ghost piece_so_far = bytes@.subrange(piece_start as int, index as int);
            if bytes[index] == DELIMITER && index + 1 < len && bytes[index + 1] == DELIMITER {
                proof {
                    lemma_ascii_boundaries(bytes@, index as int);
                    lemma_ascii_boundaries(bytes@, index + 1);
                }
                let piece = slice_between(text, piece_start, index + 1);
                let ghost before = content@;
                content.append(piece);
                proof {
                    lemma_encode_concat(before, piece@);
                    let rest = unescape_from(bytes@, index + 2);
                    assert(piece.spec_bytes() =~= piece_so_far + seq![DELIMITER]);
                    assert(unescape_from(bytes@, index as int) == seq![DELIMITER] + rest);
                    assert(encode_utf8(content@) + bytes@.subrange(index + 2, index + 2) + rest
                        =~= done + piece_so_far + (seq![DELIMITER] + rest));
                }
                piece_start = index + 2;
                index = index + 2;
            } else {
                proof {
                    let rest = unescape_from(bytes@, index + 1);
                    assert(!escape_at(bytes@, index as int));
                    assert(unescape_from(bytes@, index as int) == seq![bytes@[index as int]] + rest);
                    assert(bytes@.subrange(piece_start as int, index + 1) =~= piece_so_far + seq![
                        bytes@[index as int],
                    ]);
                    assert(done + bytes@.subrange(piece_start as int, index + 1) + rest =~= done
                        + piece_so_far + (seq![bytes@[index as int]] + rest));
                }
                index = index + 1;
            }
        }
        let piece = slice_between(text, piece_start, len);
        let ghost before = content@;
        content.append(piece);
        proof {
            lemma_encode_concat(before, piece@);
            assert(encode_utf8(content@) =~= unescape(bytes@)) by {
                assert(unescape_from(bytes@, len as int) =~= Seq::<u8>::empty());
            }
            encode_utf8_decode_utf8(content@);
        }
        content
    }
}

/// The regions that a sequence of tokens covers.
pub open spec fn spans_view(tokens: Seq<Token<'_>>) -> Seq<Span> {
    Seq::new(tokens.len(), |k: int| tokens[k].span())
}

/// Appends the span from `start` to `end` of `text`, unless it is empty.
fn push_span<'a>(tokens: &mut Vec<Token<'a>>, text: &'a str, attr: bool, start: usize, end: usize)
    requires
        start <= end <= text.spec_bytes().len(),
        is_char_boundary(text.spec_bytes(), start as int),
        is_char_boundary(text.spec_bytes(), end as int),
        forall|k: int| 0 <= k < old(tokens).len() ==> (#[trigger] old(tokens)[k]).cut_from(text.spec_bytes()),
    ensures
        spans_view(final(tokens)@) == spans_view(old(tokens)@) + emit(attr, start as int, end as int),
        forall|k: int| 0 <= k < final(tokens).len() ==> (#[trigger] final(tokens)[k]).cut_from(text.spec_bytes()),
{
    if start < end {
        let slice = slice_between(text, start, end);
        tokens.push(Token { attr, slice, start });
        assert(spans_view(tokens@) =~= spans_view(old(tokens)@) + emit(attr, start as int, end as int));
    } else {
        assert(spans_view(tokens@) =~= spans_view(old(tokens)@) + emit(attr, start as int, end as int));
    }
}

/// Where the scan stands when it has read `index` bytes: a delimiter that may
/// yet turn out to be the first of an escaped pair has not been passed.
spec fn resume_at(index: int, escape_pending: bool) -> int {
    if escape_pending {
        index - 1
    } else {
        index
    }
}

/// Splits `text` into its text and directive spans, in order.
///
/// Every span but the last is non-empty; the last one is handed out even when
/// it is empty, with the kind of the region that the input ends in. The spans
/// come in the order of the input, none overlaps or touches the next, and
/// each begins and ends at a character boundary.
pub fn tokenize<'a>(text: &'a str) -> (tokens: Vec<Token<'a>>)
    ensures
        spans_view(tokens@) == spans_of(text.spec_bytes()),
        forall|k: int| 0 <= k < tokens.len() ==> (#[trigger] tokens[k]).cut_from(text.spec_bytes()),
        ordered_spans(spans_view(tokens@), 0, text.spec_bytes().len() as int),
        forall|i: int, j: int| 0 <= i < j < tokens.len() ==> tokens[i].start < tokens[j].start,
        (forall|i: int| 0 <= i < text@.len() ==> text@[i] != '\\') ==> tokens.len() == 1
            && !tokens[0].attr && tokens[0].slice@ == text@,
{
    let bytes = text.as_bytes();
    let len = bytes.len();
    let mut tokens: Vec<Token<'a>> = Vec::new();
    let mut in_directive = false;
    let mut escape_pending = false;
    let mut region_start: usize = 0;
    let mut index: usize = 0;
    proof {
        encode_utf8_valid_utf8(text@);
        is_char_boundary_start_end_of_seq(bytes@);
        assert(spans_view(tokens@) + spans_of(bytes@) =~= spans_of(bytes@));
    }
    while index < len
        invariant
            bytes@ == text.spec_bytes(),
            len == bytes@.len(),
            valid_utf8(bytes@),
            index <= len,
            region_start <= resume_at(index as int, escape_pending),
            escape_pending ==> in_directive && bytes@[index - 1] == DELIMITER,
            is_char_boundary(bytes@, region_start as int),
            is_char_boundary(bytes@, len as int),
            forall|k: int| 0 <= k < tokens.len() ==> (#[trigger] tokens[k]).cut_from(bytes@),
            spans_view(tokens@) + scan(
                bytes@,
                in_directive,
                region_start as int,
                resume_at(index as int, escape_pending),
            ) == spans_of(bytes@),
        decreases len - index,
    {
        let byte = bytes[index];
        let ghost done = spans_view(tokens@);
        let ghost start = region_start as int;
        let ghost at = index as int;
        if escape_pending {
            escape_pending = false;
            if byte != DELIMITER {
                proof {
                    lemma_ascii_boundaries(bytes@, at - 1);
                }
                push_span(&mut tokens, text, true, region_start, index - 1);
                in_directive = false;
                region_start = index;
                proof {
                    let closed = emit(true, start, at - 1);
                    let rest = scan(bytes@, false, at, at + 1);
                    assert(scan(bytes@, false, at, at) == rest);
                    assert(scan(bytes@, true, start, at - 1) == closed + rest);
                    assert((done + closed) + rest =~= done + (closed + rest));
                }
            } else {
                assert(escape_at(bytes@, at - 1));
            }
        } else if byte == DELIMITER {
            if in_directive {
                escape_pending = true;
            } else {
                proof {
                    lemma_ascii_boundaries(bytes@, at);
                }
                push_span(&mut tokens, text, false, region_start, index);
                in_directive = true;
                region_start = index + 1;
                proof {
                    let closed = emit(false, start, at);
                    let rest = scan(bytes@, true, at + 1, at + 1);
                    assert(scan(bytes@, false, start, at) == closed + rest);
                    assert((done + closed) + rest =~= done + (closed + rest));
                }
            }
        }
        index = index + 1;
    }
    if escape_pending {
        let ghost done = spans_view(tokens@);
        let ghost start = region_start as int;
        proof {
            lemma_ascii_boundaries(bytes@, len - 1);
        }
        push_span(&mut tokens, text, true, region_start, len - 1);
        in_directive = false;
        region_start = len;
        proof {
            let closed = emit(true, start, len - 1);
            let rest = scan(bytes@, false, len as int, len as int);
            assert(scan(bytes@, true, start, len - 1) == closed + rest);
            assert((done + closed) + rest =~= done + (closed + rest));
        }
    }
    let ghost before = spans_view(tokens@);
    let last = slice_between(text, region_start, len);
    tokens.push(Token { attr: in_directive, slice: last, start: region_start });
    proof {
        assert(spans_view(tokens@) =~= before + seq![
            Span { attr: in_directive, start: region_start as int, end: len as int },
        ]);
        lemma_spans_ordered(bytes@);
        if forall|i: int| 0 <= i < text@.len() ==> text@[i] != '\\' {
            lemma_plain_text_is_one_token(text, tokens@);
        }
        assert forall|i: int, j: int| 0 <= i < j < tokens.len() implies tokens[i].start
            < tokens[j].start by {
            assert(spans_view(tokens@)[i] == tokens[i].span());
            assert(spans_view(tokens@)[j] == tokens[j].span());
        }
    }
    tokens
}

} // verus!
