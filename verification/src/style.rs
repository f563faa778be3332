//! The directive interpreter: from tokens to resolved styles.
//!
//! A directive is written in one of two forms. The compact form begins with a
//! slash and a one-letter category. The shorthand form is a list of keywords
//! separated by commas.

use vstd::prelude::*;
use vstd::string::*;
use vstd::utf8::*;
use crate::keyword::{attr_between, attr_of, color_between, color_of, spells, Attribute, Color};
use crate::token::{unescape, Token};

verus! {

/// The slash that opens a directive in compact form.
pub const SLASH: u8 = 0x2F;

/// The comma that separates the keywords of a directive in shorthand form.
pub const COMMA: u8 = 0x2C;

/// The compact category of foreground colors, the letter `f`.
pub const FOREGROUND_MARK: u8 = 0x66;

/// The compact category of background colors, the letter `b`.
pub const BACKGROUND_MARK: u8 = 0x62;

/// The compact category of the reset, the letter `r`.
pub const RESET_MARK: u8 = 0x72;

/// The compact category of text attributes, the letter `a`.
pub const ATTRIBUTE_MARK: u8 = 0x61;

/// One unit of output: a piece of text to pass through, or a style to apply.
#[derive(Clone, Copy, Debug, PartialEq, Eq)]
pub enum Style<'a> {
    Text(&'a str),
    Attribute(Attribute),
    Foreground(Color),
    Background(Color),
    Reset,
}

/// Whether a directive is written in compact form.
pub open spec fn is_compact(content: Seq<u8>) -> bool {
    content.len() >= 1 && content[0] == SLASH
}

/// The style that a directive in compact form resolves to, if any: the byte
/// after the slash picks the category, and what follows it is the keyword.
pub open spec fn compact_style<'a>(content: Seq<u8>) -> Option<Style<'a>> {
    let word = content.skip(2);
    if content.len() < 2 {
        None
    } else if content[1] == FOREGROUND_MARK {
        match color_of(word) {
            Some(color) => Some(Style::Foreground(color)),
            None => None,
        }
    } else if content[1] == BACKGROUND_MARK {
        match color_of(word) {
            Some(color) => Some(Style::Background(color)),
            None => None,
        }
    } else if content[1] == RESET_MARK {
        Some(Style::Reset)
    } else if content[1] == ATTRIBUTE_MARK {
        match attr_of(word) {
            Some(attr) => Some(Style::Attribute(attr)),
            None => None,
        }
    } else {
        None
    }
}

/// Whether `word` begins with `prefix`.
pub open spec fn begins_with(word: Seq<u8>, prefix: Seq<u8>) -> bool {
    word.len() >= prefix.len() && word.subrange(0, prefix.len() as int) == prefix
}

/// The style that one shorthand keyword resolves to, if any: the reset, an
/// attribute, a foreground color, or `on` and a background color, tried in
/// that order.
pub open spec fn keyword_style<'a>(word: Seq<u8>) -> Option<Style<'a>> {
    let on = "on".spec_bytes();
    if word == "reset".spec_bytes() {
        Some(Style::Reset)
    } else if attr_of(word) is Some {
        Some(Style::Attribute(attr_of(word)->0))
    } else if color_of(word) is Some {
        Some(Style::Foreground(color_of(word)->0))
    } else if begins_with(word, on) && color_of(word.skip(on.len() as int)) is Some {
        Some(Style::Background(color_of(word.skip(on.len() as int))->0))
    } else {
        None
    }
}

/// The keywords of a shorthand directive that remain when the keyword that
/// began at `start` has been read up to `pos`.
pub open spec fn words_from(content: Seq<u8>, start: int, pos: int) -> Seq<Seq<u8>>
    decreases content.len() - pos,
{
    if pos < 0 || pos >= content.len() {
        seq![content.subrange(start, content.len() as int)]
    } else if content[pos] == COMMA {
        seq![content.subrange(start, pos)] + words_from(content, pos + 1, pos + 1)
    } else {
        words_from(content, start, pos + 1)
    }
}

/// The keywords of a shorthand directive: its parts between commas, of which
/// there is always at least one.
pub open spec fn words_of(content: Seq<u8>) -> Seq<Seq<u8>> {
    words_from(content, 0, 0)
}

/// A style that may be missing, as a sequence of at most one style.
pub open spec fn as_styles<'a>(style: Option<Style<'a>>) -> Seq<Style<'a>> {
    match style {
        Some(style) => seq![style],
        None => Seq::empty(),
    }
}

/// The styles of a list of keywords, in order; unknown keywords give none.
pub open spec fn styles_of_words<'a>(words: Seq<Seq<u8>>) -> Seq<Style<'a>>
    decreases words.len(),
{
    if words.len() == 0 {
        Seq::empty()
    } else {
        as_styles(keyword_style(words[0])) + styles_of_words(words.drop_first())
    }
}

/// The styles that a directive resolves to.
pub open spec fn directive_styles<'a>(content: Seq<u8>) -> Seq<Style<'a>> {
    if is_compact(content) {
        as_styles(compact_style(content))
    } else {
        styles_of_words(words_of(content))
    }
}

/// Whether a byte names a compact category: one of the letters `f`, `b`, `r`
/// and `a`.
pub open spec fn is_category(mark: u8) -> bool {
    mark == FOREGROUND_MARK || mark == BACKGROUND_MARK || mark == RESET_MARK || mark
        == ATTRIBUTE_MARK
}

/// Whether a directive is reported: it is in compact form and the byte after
/// the slash names no category. A known category with an unknown keyword is
/// not reported, and neither is a slash with nothing after it.
pub open spec fn is_reported(content: Seq<u8>) -> bool {
    is_compact(content) && content.len() >= 2 && !is_category(content[1])
}

/// A directive that is reported resolves to no style.
pub proof fn lemma_reported_gives_no_style<'a>(content: Seq<u8>)
    requires
        is_reported(content),
    ensures
        directive_styles::<'a>(content) == Seq::<Style<'a>>::empty(),
{
}

/// The line that reports a directive whose content is `content`.
pub open spec fn report_text(content: Seq<char>) -> Seq<char> {
    "unknown attribute: '"@ + content + "'"@
}

/// The styles that one token resolves to: a text token passes through as it
/// is, a directive token is interpreted by what it says.
pub open spec fn token_styles<'a>(token: Token<'a>) -> Seq<Style<'a>> {
    if token.attr {
        directive_styles(unescape(token.slice.spec_bytes()))
    } else {
        seq![Style::Text(token.slice)]
    }
}

/// The lines that one token is reported with: none, or one.
pub open spec fn token_reports(token: Token<'_>) -> Seq<Seq<char>> {
    if token.attr && is_reported(unescape(token.slice.spec_bytes())) {
        seq![report_text(token.content_view())]
    } else {
        Seq::empty()
    }
}

/// The styles of a sequence of tokens, in order.
pub open spec fn all_styles<'a>(tokens: Seq<Token<'a>>) -> Seq<Style<'a>>
    decreases tokens.len(),
{
    if tokens.len() == 0 {
        Seq::empty()
    } else {
        all_styles(tokens.drop_last()) + token_styles(tokens.last())
    }
}

/// The lines that a sequence of tokens is reported with, in order.
pub open spec fn all_reports(tokens: Seq<Token<'_>>) -> Seq<Seq<char>>
    decreases tokens.len(),
{
    if tokens.len() == 0 {
        Seq::empty()
    } else {
        all_reports(tokens.drop_last()) + token_reports(tokens.last())
    }
}

/// Resolves a directive in compact form.
pub fn compact<'a>(content: &[u8]) -> (style: Option<Style<'a>>)
    requires
        is_compact(content@),
    ensures
        style == compact_style::<'a>(content@),
{
    let len = content.len();
    if len < 2 {
        return None;
    }
    assert(content@.skip(2) =~= content@.subrange(2, len as int));
    let category = content[1];
    if category == FOREGROUND_MARK {
        match color_between(content, 2, len) {
            Some(color) => Some(Style::Foreground(color)),
            None => None,
        }
    } else if category == BACKGROUND_MARK {
        match color_between(content, 2, len) {
            Some(color) => Some(Style::Background(color)),
            None => None,
        }
    } else if category == RESET_MARK {
        Some(Style::Reset)
    } else if category == ATTRIBUTE_MARK {
        match attr_between(content, 2, len) {
            Some(attr) => Some(Style::Attribute(attr)),
            None => None,
        }
    } else {
        None
    }
}

/// Resolves the shorthand keyword that the bytes of `content` from `start` to
/// `end` spell.
pub fn keyword<'a>(content: &[u8], start: usize, end: usize) -> (style: Option<Style<'a>>)
    requires
        start <= end <= content@.len(),
    ensures
        style == keyword_style::<'a>(content@.subrange(start as int, end as int)),
{
    let ghost word = content@.subrange(start as int, end as int);
    if spells(content, start, end, "reset") {
        return Some(Style::Reset);
    }
    if let Some(attr) = attr_between(content, start, end) {
        return Some(Style::Attribute(attr));
    }
    if let Some(color) = color_between(content, start, end) {
        return Some(Style::Foreground(color));
    }
    let width = "on".as_bytes().len();
    if end - start >= width {
        assert(word.subrange(0, width as int) =~= content@.subrange(
            start as int,
            start + width,
        ));
        assert(word.skip(width as int) =~= content@.subrange(start + width, end as int));
        if spells(content, start, start + width, "on") {
            if let Some(color) = color_between(content, start + width, end) {
                return Some(Style::Background(color));
            }
        }
    }
    None
}

/// Appends the styles of a directive in shorthand form: those of its
/// keywords, in order.
pub fn shorthand<'a>(content: &[u8], styles: &mut Vec<Style<'a>>)
    ensures
        final(styles)@ == old(styles)@ + styles_of_words::<'a>(words_of(content@)),
{
    let len = content.len();
    let mut start: usize = 0;
    let mut index: usize = 0;
    while index < len
        invariant
            len == content@.len(),
            start <= index <= len,
            styles@ + styles_of_words::<'a>(words_from(content@, start as int, index as int))
                == old(styles)@ + styles_of_words::<'a>(words_of(content@)),
        decreases len - index,
    {
        if content[index] == COMMA {
            let ghost done = styles@;
            let ghost word = content@.subrange(start as int, index as int);
            let ghost rest = words_from(content@, index + 1, index + 1);
            let found = keyword(content, start, index);
            if let Some(style) = found {
                styles.push(style);
            }
            proof {
                let words = words_from(content@, start as int, index as int);
                assert(words == seq![word] + rest);
                assert(words.drop_first() =~= rest);
                assert(styles@ =~= done + as_styles(found));
                assert(styles@ + styles_of_words::<'a>(rest) =~= done + styles_of_words::<'a>(
                    words,
                ));
            }
            start = index + 1;
        }
        index = index + 1;
    }
    let ghost done = styles@;
    let found = keyword(content, start, len);
    if let Some(style) = found {
        styles.push(style);
    }
    proof {
        let words = words_from(content@, start as int, len as int);
        assert(words.drop_first() =~= Seq::<Seq<u8>>::empty());
        assert(styles_of_words::<'a>(words.drop_first()) =~= Seq::<Style<'a>>::empty());
        assert(styles@ =~= done + as_styles(found));
        assert(styles@ =~= done + styles_of_words::<'a>(words));
    }
}

/// Appends the styles that a directive resolves to, and tells whether the
/// directive is to be reported.
pub fn directive<'a>(content: &[u8], styles: &mut Vec<Style<'a>>) -> (reported: bool)
    ensures
        final(styles)@ == old(styles)@ + directive_styles::<'a>(content@),
        reported == is_reported(content@),
{
    if content.len() >= 1 && content[0] == SLASH {
        let found = compact(content);
        if let Some(style) = found {
            styles.push(style);
        }
        assert(styles@ =~= old(styles)@ + as_styles(found));
        if content.len() >= 2 {
            let mark = content[1];
            mark != FOREGROUND_MARK && mark != BACKGROUND_MARK && mark != RESET_MARK && mark
                != ATTRIBUTE_MARK
        } else {
            false
        }
    } else {
        shorthand(content, styles);
        false
    }
}

/// The line that reports a directive: `unknown attribute:` and the
/// directive's content between single quotes.
pub fn report(content: &str) -> (line: String)
    ensures
        line@ == report_text(content@),
{
    let mut line = String::from_str("unknown attribute: '");
    line.append(content);
    line.append("'");
    line
}

/// What the interpreter hands back: the resolved styles, and one line for
/// each compact directive whose category is unknown.
pub struct Stylized<'a> {
    pub styles: Vec<Style<'a>>,
    pub diagnostics: Vec<String>,
}

impl<'a> Stylized<'a> {
    /// The reported lines, as texts.
    pub open spec fn reports(&self) -> Seq<Seq<char>> {
        Seq::new(self.diagnostics@.len(), |k: int| self.diagnostics@[k]@)
    }
}

/// Resolves the tokens in order. A text token becomes a text style. A
/// directive token becomes the styles it names. A keyword that names nothing
/// is passed over in silence, in shorthand form and after a known compact
/// category alike. A compact directive whose category is unknown gives no
/// style and is reported with one line.
pub fn stylize<'a>(tokens: Vec<Token<'a>>) -> (out: Stylized<'a>)
    ensures
        out.styles@ == all_styles(tokens@),
        out.reports() == all_reports(tokens@),
{
    let mut out = Stylized { styles: Vec::new(), diagnostics: Vec::new() };
    let mut index: usize = 0;
    while index < tokens.len()
        invariant
            index <= tokens.len(),
            out.styles@ == all_styles(tokens@.take(index as int)),
            out.reports() == all_reports(tokens@.take(index as int)),
        decreases tokens.len() - index,
    {
        let ghost styled = out.styles@;
        let ghost told = out.reports();
        let token = &tokens[index];
        let ghost next = tokens@.take(index + 1);
        assert(next.drop_last() =~= tokens@.take(index as int));
        assert(next.last() == *token);
        if token.attr {
            let content = token.content();
            let reported = directive(content.as_str().as_bytes(), &mut out.styles);
            if reported {
                let line = report(content.as_str());
                out.diagnostics.push(line);
                assert(out.reports() =~= told + token_reports(*token));
            } else {
                assert(out.reports() =~= told + token_reports(*token));
            }
        } else {
            out.styles.push(Style::Text(token.slice));
            assert(out.styles@ =~= styled + token_styles(*token));
            assert(out.reports() =~= told + token_reports(*token));
        }
        index = index + 1;
    }
    assert(tokens@.take(index as int) =~= tokens@);
    out
}

} // verus!
