//! Rendering resolved styles as text for a terminal. The escape sequences
//! come from the `yansi` crate.

use vstd::prelude::*;
use vstd::string::*;
use crate::keyword::{Attribute, Color};
use crate::style::Style;

verus! {

/// The escape character that opens every terminal control sequence.
pub const ESCAPE: char = '\x1B';

/// The digit by which a control sequence names a basic color.
pub open spec fn color_digit(color: Color) -> char {
    match color {
        Color::Black => '0',
        Color::Red => '1',
        Color::Green => '2',
        Color::Yellow => '3',
        Color::Blue => '4',
        Color::Magenta => '5',
        Color::Cyan => '6',
        Color::White => '7',
    }
}

/// The digit by which a control sequence names a text attribute.
pub open spec fn attribute_digit(attr: Attribute) -> char {
    match attr {
        Attribute::Bold => '1',
        Attribute::Dim => '2',
        Attribute::Italic => '3',
        Attribute::Underline => '4',
        Attribute::Blink => '5',
        Attribute::RapidBlink => '6',
        Attribute::Invert => '7',
        Attribute::Conceal => '8',
        Attribute::Strike => '9',
    }
}

/// The sequence that switches a text attribute on.
pub open spec fn attribute_code(attr: Attribute) -> Seq<char> {
    seq![ESCAPE, '[', attribute_digit(attr), 'm']
}

/// The sequence that sets the foreground color.
pub open spec fn foreground_code(color: Color) -> Seq<char> {
    seq![ESCAPE, '[', '3', color_digit(color), 'm']
}

/// The sequence that sets the background color.
pub open spec fn background_code(color: Color) -> Seq<char> {
    seq![ESCAPE, '[', '4', color_digit(color), 'm']
}

/// The sequence that switches every style off.
pub open spec fn reset_code() -> Seq<char> {
    seq![ESCAPE, '[', '0', 'm']
}

/// Calls `yansi::Style::prefix` on a style that holds one attribute and
/// nothing else. Trusted: the prefix is the escape character, an opening
/// bracket, the attribute's number (1 to 9) and the letter `m`.
#[verifier::external_body]
fn attribute_prefix(attr: Attribute) -> (code: String)
    ensures
        code@ == attribute_code(attr),
{
    yansi::Style::from(match attr {
        Attribute::Bold => yansi::Attribute::Bold,
        Attribute::Dim => yansi::Attribute::Dim,
        Attribute::Italic => yansi::Attribute::Italic,
        Attribute::Underline => yansi::Attribute::Underline,
        Attribute::Blink => yansi::Attribute::Blink,
        Attribute::RapidBlink => yansi::Attribute::RapidBlink,
        Attribute::Conceal => yansi::Attribute::Conceal,
        Attribute::Strike => yansi::Attribute::Strike,
        Attribute::Invert => yansi::Attribute::Invert,
    }).prefix().into_owned()
}

/// Calls `yansi::Style::prefix` on a style that holds a foreground color and
/// nothing else. Trusted: the prefix is the escape character, an opening
/// bracket, the color's number (30 to 37) and the letter `m`.
#[verifier::external_body]
fn foreground_prefix(color: Color) -> (code: String)
    ensures
        code@ == foreground_code(color),
{
    yansi::Style::new().fg(match color {
        Color::Black => yansi::Color::Black,
        Color::Red => yansi::Color::Red,
        Color::Green => yansi::Color::Green,
        Color::Yellow => yansi::Color::Yellow,
        Color::Blue => yansi::Color::Blue,
        Color::Magenta => yansi::Color::Magenta,
        Color::Cyan => yansi::Color::Cyan,
        Color::White => yansi::Color::White,
    }).prefix().into_owned()
}

/// Calls `yansi::Style::prefix` on a style that holds a background color and
/// nothing else. Trusted: the prefix is the escape character, an opening
/// bracket, the color's number (40 to 47) and the letter `m`.
#[verifier::external_body]
fn background_prefix(color: Color) -> (code: String)
    ensures
        code@ == background_code(color),
{
    yansi::Style::new().bg(match color {
        Color::Black => yansi::Color::Black,
        Color::Red => yansi::Color::Red,
        Color::Green => yansi::Color::Green,
        Color::Yellow => yansi::Color::Yellow,
        Color::Blue => yansi::Color::Blue,
        Color::Magenta => yansi::Color::Magenta,
        Color::Cyan => yansi::Color::Cyan,
        Color::White => yansi::Color::White,
    }).prefix().into_owned()
}

/// Calls `yansi::Style::suffix` on an empty style marked as resetting.
/// Trusted: the suffix of such a style is the sequence that switches every
/// style off, whatever the style holds.
#[verifier::external_body]
fn reset_suffix() -> (code: String)
    ensures
        code@ == reset_code(),
{
    yansi::Style::new().resetting().suffix().into_owned()
}

/// What a style looks like on a terminal: a text as it is, anything else as
/// its control sequence.
pub open spec fn rendered(style: Style<'_>) -> Seq<char> {
    match style {
        Style::Text(text) => text@,
        Style::Attribute(attr) => attribute_code(attr),
        Style::Foreground(color) => foreground_code(color),
        Style::Background(color) => background_code(color),
        Style::Reset => reset_code(),
    }
}

/// What a sequence of styles looks like on a terminal: one after another.
pub open spec fn rendered_all(styles: Seq<Style<'_>>) -> Seq<char>
    decreases styles.len(),
{
    if styles.len() == 0 {
        Seq::empty()
    } else {
        rendered_all(styles.drop_last()) + rendered(styles.last())
    }
}

/// Renders one style.
pub fn render(style: &Style<'_>) -> (out: String)
    ensures
        out@ == rendered(*style),
{
    match style {
        Style::Text(text) => String::from_str(text),
        Style::Attribute(attr) => attribute_prefix(*attr),
        Style::Foreground(color) => foreground_prefix(*color),
        Style::Background(color) => background_prefix(*color),
        Style::Reset => reset_suffix(),
    }
}

/// Renders the styles in order, as one text.
pub fn render_all(styles: &Vec<Style<'_>>) -> (out: String)
    ensures
        out@ == rendered_all(styles@),
{
    let mut out = String::new();
    let mut index: usize = 0;
    while index < styles.len()
        invariant
            index <= styles.len(),
            out@ == rendered_all(styles@.take(index as int)),
        decreases styles.len() - index,
    {
        let piece = render(&styles[index]);
        assert(styles@.take(index + 1).drop_last() =~= styles@.take(index as int));
        out.append(piece.as_str());
        index = index + 1;
    }
    assert(styles@.take(index as int) =~= styles@);
    out
}

} // verus!
