//! Styled-text markup: a tokenizer that splits marked-up text into plain-text
//! and directive spans, an interpreter that resolves directives into terminal
//! styles, and a renderer that turns resolved styles into escape sequences.

pub mod boundary;
pub mod token;
pub mod scan_lemmas;
pub mod round_trip;
pub mod keyword;
pub mod style;
pub mod render;
