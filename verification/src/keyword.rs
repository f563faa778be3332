//! The directive vocabulary: colors, text attributes, and the keywords that
//! name them.

use vstd::prelude::*;
use vstd::string::*;

verus! {

/// The eight basic terminal colors.
#[derive(Clone, Copy, Debug, PartialEq, Eq, Structural)]
pub enum Color {
    Black,
    Red,
    Green,
    Yellow,
    Blue,
    Magenta,
    Cyan,
    White,
}

/// The text attributes a directive can switch on.
#[derive(Clone, Copy, Debug, PartialEq, Eq, Structural)]
pub enum Attribute {
    Bold,
    Dim,
    Italic,
    Underline,
    Blink,
    RapidBlink,
    Conceal,
    Strike,
    Invert,
}

/// The color that a keyword names, if it names one.
pub open spec fn color_of(word: Seq<u8>) -> Option<Color> {
    if word == "black".spec_bytes() {
        Some(Color::Black)
    } else if word == "red".spec_bytes() {
        Some(Color::Red)
    } else if word == "green".spec_bytes() {
        Some(Color::Green)
    } else if word == "yellow".spec_bytes() {
        Some(Color::Yellow)
    } else if word == "blue".spec_bytes() {
        Some(Color::Blue)
    } else if word == "magenta".spec_bytes() {
        Some(Color::Magenta)
    } else if word == "cyan".spec_bytes() {
        Some(Color::Cyan)
    } else if word == "white".spec_bytes() {
        Some(Color::White)
    } else {
        None
    }
}

/// The attribute that a keyword names, if it names one.
pub open spec fn attr_of(word: Seq<u8>) -> Option<Attribute> {
    if word == "bold".spec_bytes() {
        Some(Attribute::Bold)
    } else if word == "dim".spec_bytes() {
        Some(Attribute::Dim)
    } else if word == "italic".spec_bytes() {
        Some(Attribute::Italic)
    } else if word == "underline".spec_bytes() {
        Some(Attribute::Underline)
    } else if word == "blink".spec_bytes() {
        Some(Attribute::Blink)
    } else if word == "rapid-blink".spec_bytes() {
        Some(Attribute::RapidBlink)
    } else if word == "conceal".spec_bytes() {
        Some(Attribute::Conceal)
    } else if word == "strike".spec_bytes() {
        Some(Attribute::Strike)
    } else if word == "invert".spec_bytes() {
        Some(Attribute::Invert)
    } else {
        None
    }
}

/// Whether the bytes of `bytes` from `start` to `end` spell `word`.
pub fn spells(bytes: &[u8], start: usize, end: usize, word: &str) -> (same: bool)
    requires
        start <= end <= bytes@.len(),
    ensures
        same == (bytes@.subrange(start as int, end as int) == word.spec_bytes()),
{
    let letters = word.as_bytes();
    let count = letters.len();
    if end - start != count {
        return false;
    }
    let mut k: usize = 0;
    while k < count
        invariant
            start <= end <= bytes@.len(),
            count == end - start,
            letters@ == word.spec_bytes(),
            count == letters@.len(),
            k <= count,
            forall|i: int| 0 <= i < k ==> bytes@[start + i] == letters@[i],
        decreases count - k,
    {
        if bytes[start + k] != letters[k] {
            assert(bytes@.subrange(start as int, end as int)[k as int] != letters@[k as int]);
            return false;
        }
        k = k + 1;
    }
    assert(bytes@.subrange(start as int, end as int) =~= letters@);
    true
}

/// The color named by the bytes of `bytes` from `start` to `end`.
pub fn color_between(bytes: &[u8], start: usize, end: usize) -> (color: Option<Color>)
    requires
        start <= end <= bytes@.len(),
    ensures
        color == color_of(bytes@.subrange(start as int, end as int)),
{
    if spells(bytes, start, end, "black") {
        Some(Color::Black)
    } else if spells(bytes, start, end, "red") {
        Some(Color::Red)
    } else if spells(bytes, start, end, "green") {
        Some(Color::Green)
    } else if spells(bytes, start, end, "yellow") {
        Some(Color::Yellow)
    } else if spells(bytes, start, end, "blue") {
        Some(Color::Blue)
    } else if spells(bytes, start, end, "magenta") {
        Some(Color::Magenta)
    } else if spells(bytes, start, end, "cyan") {
        Some(Color::Cyan)
    } else if spells(bytes, start, end, "white") {
        Some(Color::White)
    } else {
        None
    }
}

/// The attribute named by the bytes of `bytes` from `start` to `end`.
pub fn attr_between(bytes: &[u8], start: usize, end: usize) -> (attr: Option<Attribute>)
    requires
        start <= end <= bytes@.len(),
    ensures
        attr == attr_of(bytes@.subrange(start as int, end as int)),
{
    if spells(bytes, start, end, "bold") {
        Some(Attribute::Bold)
    } else if spells(bytes, start, end, "dim") {
        Some(Attribute::Dim)
    } else if spells(bytes, start, end, "italic") {
        Some(Attribute::Italic)
    } else if spells(bytes, start, end, "underline") {
        Some(Attribute::Underline)
    } else if spells(bytes, start, end, "blink") {
        Some(Attribute::Blink)
    } else if spells(bytes, start, end, "rapid-blink") {
        Some(Attribute::RapidBlink)
    } else if spells(bytes, start, end, "conceal") {
        Some(Attribute::Conceal)
    } else if spells(bytes, start, end, "strike") {
        Some(Attribute::Strike)
    } else if spells(bytes, start, end, "invert") {
        Some(Attribute::Invert)
    } else {
        None
    }
}

/// The color that `color` names: one of the eight basic color keywords, or
/// nothing.
pub fn parse_color(color: &str) -> (found: Option<Color>)
    ensures
        found == color_of(color.spec_bytes()),
{
    let bytes = color.as_bytes();
    assert(bytes@.subrange(0, bytes@.len() as int) =~= bytes@);
    color_between(bytes, 0, bytes.len())
}

/// The attribute that `attr` names: one of the nine attribute keywords, or
/// nothing.
pub fn parse_attr(attr: &str) -> (found: Option<Attribute>)
    ensures
        found == attr_of(attr.spec_bytes()),
{
    let bytes = attr.as_bytes();
    assert(bytes@.subrange(0, bytes@.len() as int) =~= bytes@);
    attr_between(bytes, 0, bytes.len())
}

} // verus!
