use style_markup::keyword::{Attribute, Color};
use style_markup::render::{render, render_all};
use style_markup::style::{stylize, Style};
use style_markup::token::tokenize;

#[test]
fn text_renders_as_itself() {
    assert_eq!(render(&Style::Text("héllo")), "héllo");
    assert_eq!(render(&Style::Text("")), "");
}

#[test]
fn attributes_render_as_their_codes() {
    assert_eq!(render(&Style::Attribute(Attribute::Bold)), "\x1B[1m");
    assert_eq!(render(&Style::Attribute(Attribute::Dim)), "\x1B[2m");
    assert_eq!(render(&Style::Attribute(Attribute::Italic)), "\x1B[3m");
    assert_eq!(render(&Style::Attribute(Attribute::Underline)), "\x1B[4m");
    assert_eq!(render(&Style::Attribute(Attribute::Blink)), "\x1B[5m");
    assert_eq!(render(&Style::Attribute(Attribute::RapidBlink)), "\x1B[6m");
    assert_eq!(render(&Style::Attribute(Attribute::Invert)), "\x1B[7m");
    assert_eq!(render(&Style::Attribute(Attribute::Conceal)), "\x1B[8m");
    assert_eq!(render(&Style::Attribute(Attribute::Strike)), "\x1B[9m");
}

#[test]
fn foreground_colors_render_as_their_codes() {
    assert_eq!(render(&Style::Foreground(Color::Black)), "\x1B[30m");
    assert_eq!(render(&Style::Foreground(Color::Red)), "\x1B[31m");
    assert_eq!(render(&Style::Foreground(Color::Green)), "\x1B[32m");
    assert_eq!(render(&Style::Foreground(Color::Yellow)), "\x1B[33m");
    assert_eq!(render(&Style::Foreground(Color::Blue)), "\x1B[34m");
    assert_eq!(render(&Style::Foreground(Color::Magenta)), "\x1B[35m");
    assert_eq!(render(&Style::Foreground(Color::Cyan)), "\x1B[36m");
    assert_eq!(render(&Style::Foreground(Color::White)), "\x1B[37m");
}

#[test]
fn background_colors_render_as_their_codes() {
    assert_eq!(render(&Style::Background(Color::Black)), "\x1B[40m");
    assert_eq!(render(&Style::Background(Color::Red)), "\x1B[41m");
    assert_eq!(render(&Style::Background(Color::Green)), "\x1B[42m");
    assert_eq!(render(&Style::Background(Color::Yellow)), "\x1B[43m");
    assert_eq!(render(&Style::Background(Color::Blue)), "\x1B[44m");
    assert_eq!(render(&Style::Background(Color::Magenta)), "\x1B[45m");
    assert_eq!(render(&Style::Background(Color::Cyan)), "\x1B[46m");
    assert_eq!(render(&Style::Background(Color::White)), "\x1B[47m");
}

#[test]
fn reset_renders_as_the_reset_code() {
    assert_eq!(render(&Style::Reset), "\x1B[0m");
}

#[test]
fn styles_render_one_after_another() {
    let out = stylize(tokenize("plain \\bold,red\\loud\\reset\\ plain"));
    assert_eq!(render_all(&out.styles), "plain \x1B[1m\x1B[31mloud\x1B[0m plain");
    assert_eq!(render_all(&Vec::new()), "");
}
