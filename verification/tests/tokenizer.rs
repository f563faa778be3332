use style_markup::token::{tokenize, Token};

fn parts<'a>(tokens: &[Token<'a>]) -> Vec<(bool, &'a str, usize)> {
    tokens.iter().map(|t| (t.attr, t.slice, t.start)).collect()
}

#[test]
fn plain_text_is_one_text_token() {
    let tokens = tokenize("hello");
    assert_eq!(parts(&tokens), vec![(false, "hello", 0)]);
}

#[test]
fn empty_input_is_one_empty_text_token() {
    let tokens = tokenize("");
    assert_eq!(parts(&tokens), vec![(false, "", 0)]);
}

#[test]
fn directive_text_directive() {
    let tokens = tokenize("\\bold\\hi\\reset\\");
    assert_eq!(
        parts(&tokens),
        vec![(true, "bold", 1), (false, "hi", 6), (true, "reset", 9), (false, "", 15)]
    );
}

#[test]
fn unterminated_directive_is_the_last_token() {
    let tokens = tokenize("ab\\bold");
    assert_eq!(parts(&tokens), vec![(false, "ab", 0), (true, "bold", 3)]);
}

#[test]
fn trailing_delimiter_opens_an_empty_last_directive() {
    let tokens = tokenize("\\onblue\\y\\");
    assert_eq!(parts(&tokens), vec![(true, "onblue", 1), (false, "y", 8), (true, "", 10)]);
}

#[test]
fn adjacent_delimiters_in_text_give_no_token() {
    let tokens = tokenize("a\\\\b");
    assert_eq!(parts(&tokens), vec![(false, "a", 0), (false, "b", 3)]);
}

#[test]
fn doubled_delimiter_stays_inside_the_directive() {
    let tokens = tokenize("\\a\\\\b\\");
    assert_eq!(parts(&tokens), vec![(true, "a\\\\b", 1), (false, "", 6)]);
    assert_eq!(tokens[0].content(), "a\\b");
}

#[test]
fn several_doubled_delimiters_fold_one_for_one() {
    let tokens = tokenize("x\\a\\\\\\\\b\\\\c\\y");
    assert_eq!(
        parts(&tokens),
        vec![(false, "x", 0), (true, "a\\\\\\\\b\\\\c", 2), (false, "y", 12)]
    );
    assert_eq!(tokens[1].content(), "a\\\\b\\c");
}

#[test]
fn three_delimiters_open_a_directive_that_begins_with_one() {
    let tokens = tokenize("\\\\\\");
    assert_eq!(parts(&tokens), vec![(true, "\\\\", 1)]);
    assert_eq!(tokens[0].content(), "\\");
}

#[test]
fn content_of_a_span_without_delimiters_is_the_span() {
    let tokens = tokenize("\\bold,red\\");
    assert_eq!(tokens[0].content(), "bold,red");
}

#[test]
fn multi_byte_characters_are_never_split() {
    let tokens = tokenize("héllo\\bold\\wörld ✓\\é");
    assert_eq!(
        parts(&tokens),
        vec![(false, "héllo", 0), (true, "bold", 7), (false, "wörld ✓", 12), (true, "é", 23)]
    );
}

#[test]
fn starts_increase_strictly() {
    let tokens = tokenize("a\\b\\\\c\\d\\\\e\\\\\\f\\");
    for pair in tokens.windows(2) {
        assert!(pair[0].start < pair[1].start);
        assert!(pair[0].start + pair[0].slice.len() < pair[1].start);
    }
    for token in &tokens[..tokens.len() - 1] {
        assert!(!token.slice.is_empty());
    }
}

#[test]
fn spans_are_parts_of_the_input() {
    let text = "one\\two\\\\2\\three\\\\\\four";
    for token in tokenize(text) {
        assert_eq!(&text[token.start..token.start + token.slice.len()], token.slice);
    }
}

fn rejoin(text: &str) -> String {
    let mut out = String::new();
    for token in tokenize(text) {
        if token.attr {
            out.push('\\');
            out.push_str(&token.content());
            out.push('\\');
        } else {
            out.push_str(token.slice);
        }
    }
    out
}

#[test]
fn rejoined_tokens_give_the_input_with_escapes_folded() {
    assert_eq!(rejoin("hello"), "hello");
    assert_eq!(rejoin(""), "");
    assert_eq!(rejoin("\\bold\\hi\\reset\\"), "\\bold\\hi\\reset\\");
    assert_eq!(rejoin("x\\a\\\\b\\y\\bold\\"), "x\\a\\b\\y\\bold\\");
    assert_eq!(rejoin("\\\\\\\\\\z\\é"), "\\\\\\z\\é");
}

#[test]
fn rejoining_drops_empty_regions_and_closes_an_open_one() {
    assert_eq!(rejoin("a\\\\b"), "ab");
    assert_eq!(rejoin("\\a"), "\\a\\");
}
