use style_markup::keyword::{parse_attr, parse_color, Attribute, Color};
use style_markup::style::{report, stylize, Style};
use style_markup::token::tokenize;

#[test]
fn plain_text_passes_through() {
    let out = stylize(tokenize("hello"));
    assert_eq!(out.styles, vec![Style::Text("hello")]);
    assert!(out.diagnostics.is_empty());
}

#[test]
fn shorthand_attribute_and_reset() {
    let out = stylize(tokenize("\\bold\\hi\\reset\\"));
    assert_eq!(
        out.styles,
        vec![Style::Attribute(Attribute::Bold), Style::Text("hi"), Style::Reset, Style::Text("")]
    );
    assert!(out.diagnostics.is_empty());
}

#[test]
fn compact_foreground_and_reset() {
    let out = stylize(tokenize("\\/fred\\x\\/r\\"));
    assert_eq!(
        out.styles,
        vec![Style::Foreground(Color::Red), Style::Text("x"), Style::Reset, Style::Text("")]
    );
    assert!(out.diagnostics.is_empty());
}

#[test]
fn shorthand_background() {
    let out = stylize(tokenize("\\onblue\\y\\"));
    assert_eq!(out.styles, vec![Style::Background(Color::Blue), Style::Text("y")]);
    assert!(out.diagnostics.is_empty());
}

#[test]
fn unknown_shorthand_keyword_is_passed_over_in_silence() {
    let out = stylize(tokenize("\\glitter\\z"));
    assert_eq!(out.styles, vec![Style::Text("z")]);
    assert!(out.diagnostics.is_empty());
}

#[test]
fn unknown_compact_category_is_reported() {
    let out = stylize(tokenize("\\/q\\"));
    assert_eq!(out.styles, vec![Style::Text("")]);
    assert_eq!(out.diagnostics, vec!["unknown attribute: '/q'".to_string()]);
}

#[test]
fn processing_goes_on_after_a_report() {
    let out = stylize(tokenize("\\/q\\a\\/x\\b\\bold\\c"));
    assert_eq!(
        out.styles,
        vec![
            Style::Text("a"),
            Style::Text("b"),
            Style::Attribute(Attribute::Bold),
            Style::Text("c")
        ]
    );
    assert_eq!(
        out.diagnostics,
        vec!["unknown attribute: '/q'".to_string(), "unknown attribute: '/x'".to_string()]
    );
}

#[test]
fn unknown_keyword_after_a_known_category_gives_nothing() {
    let out = stylize(tokenize("\\/fpurple\\x\\/abright\\y\\/bpink\\z\\/f\\"));
    assert_eq!(
        out.styles,
        vec![Style::Text("x"), Style::Text("y"), Style::Text("z"), Style::Text("")]
    );
    assert!(out.diagnostics.is_empty());
    let out = stylize(tokenize("\\/fpurple\\\\/abright\\"));
    assert_eq!(out.styles, vec![Style::Text("")]);
    assert!(out.diagnostics.is_empty());
}

#[test]
fn slash_alone_gives_nothing() {
    let out = stylize(tokenize("\\/\\x"));
    assert_eq!(out.styles, vec![Style::Text("x")]);
    assert!(out.diagnostics.is_empty());
}

#[test]
fn only_the_category_decides_a_report() {
    let out = stylize(tokenize("\\/Fred\\1\\/ red\\2\\//\\3\\/xbold\\"));
    assert_eq!(
        out.styles,
        vec![Style::Text("1"), Style::Text("2"), Style::Text("3"), Style::Text("")]
    );
    assert_eq!(
        out.diagnostics,
        vec![
            "unknown attribute: '/Fred'".to_string(),
            "unknown attribute: '/ red'".to_string(),
            "unknown attribute: '//'".to_string(),
            "unknown attribute: '/xbold'".to_string()
        ]
    );
}

#[test]
fn compact_categories() {
    let out = stylize(tokenize("\\/bgreen\\1\\/aunderline\\2\\/fwhite\\3\\/r\\"));
    assert_eq!(
        out.styles,
        vec![
            Style::Background(Color::Green),
            Style::Text("1"),
            Style::Attribute(Attribute::Underline),
            Style::Text("2"),
            Style::Foreground(Color::White),
            Style::Text("3"),
            Style::Reset,
            Style::Text("")
        ]
    );
}

#[test]
fn compact_reset_ignores_what_follows() {
    let out = stylize(tokenize("\\/reset everything\\"));
    assert_eq!(out.styles, vec![Style::Reset, Style::Text("")]);
    assert!(out.diagnostics.is_empty());
}

#[test]
fn shorthand_list_resolves_each_keyword_in_order() {
    let out = stylize(tokenize("\\bold,red,onwhite,glitter,,reset,rapid-blink\\"));
    assert_eq!(
        out.styles,
        vec![
            Style::Attribute(Attribute::Bold),
            Style::Foreground(Color::Red),
            Style::Background(Color::White),
            Style::Reset,
            Style::Attribute(Attribute::RapidBlink),
            Style::Text("")
        ]
    );
    assert!(out.diagnostics.is_empty());
}

#[test]
fn shorthand_keywords_are_matched_whole() {
    let out = stylize(tokenize("\\bolder, red,on,onpink,ON red,redd\\"));
    assert_eq!(out.styles, vec![Style::Text("")]);
    assert!(out.diagnostics.is_empty());
}

#[test]
fn escaped_delimiter_shows_once_in_the_report() {
    let out = stylize(tokenize("\\/q\\\\z\\"));
    assert_eq!(out.styles, vec![Style::Text("")]);
    assert_eq!(out.diagnostics, vec!["unknown attribute: '/q\\z'".to_string()]);
}

#[test]
fn multi_byte_directive_is_no_keyword() {
    let out = stylize(tokenize("\\/é\\\\é\\ü"));
    assert_eq!(out.styles, vec![Style::Text("ü")]);
    assert_eq!(out.diagnostics, vec!["unknown attribute: '/é\\é'".to_string()]);
    let out = stylize(tokenize("\\é,red\\ü"));
    assert_eq!(out.styles, vec![Style::Foreground(Color::Red), Style::Text("ü")]);
}

#[test]
fn every_color_keyword() {
    assert_eq!(parse_color("black"), Some(Color::Black));
    assert_eq!(parse_color("red"), Some(Color::Red));
    assert_eq!(parse_color("green"), Some(Color::Green));
    assert_eq!(parse_color("yellow"), Some(Color::Yellow));
    assert_eq!(parse_color("blue"), Some(Color::Blue));
    assert_eq!(parse_color("magenta"), Some(Color::Magenta));
    assert_eq!(parse_color("cyan"), Some(Color::Cyan));
    assert_eq!(parse_color("white"), Some(Color::White));
    assert_eq!(parse_color("Red"), None);
    assert_eq!(parse_color("bright-red"), None);
    assert_eq!(parse_color(""), None);
    assert_eq!(parse_color("bold"), None);
}

#[test]
fn every_attribute_keyword() {
    assert_eq!(parse_attr("bold"), Some(Attribute::Bold));
    assert_eq!(parse_attr("dim"), Some(Attribute::Dim));
    assert_eq!(parse_attr("italic"), Some(Attribute::Italic));
    assert_eq!(parse_attr("underline"), Some(Attribute::Underline));
    assert_eq!(parse_attr("blink"), Some(Attribute::Blink));
    assert_eq!(parse_attr("rapid-blink"), Some(Attribute::RapidBlink));
    assert_eq!(parse_attr("conceal"), Some(Attribute::Conceal));
    assert_eq!(parse_attr("strike"), Some(Attribute::Strike));
    assert_eq!(parse_attr("invert"), Some(Attribute::Invert));
    assert_eq!(parse_attr("rapid_blink"), None);
    assert_eq!(parse_attr("bol"), None);
    assert_eq!(parse_attr("red"), None);
}

#[test]
fn report_line_quotes_the_content() {
    assert_eq!(report("/q"), "unknown attribute: '/q'");
    assert_eq!(report(""), "unknown attribute: ''");
}
