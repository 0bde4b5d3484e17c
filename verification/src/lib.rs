//! Grammar-driven rewriting of source text: a text is split into tokens,
//! read as phrases by the rules of a source grammar, and the resulting
//! syntax tree is rendered with the handlebars templates of a target
//! grammar. Positions and lengths in texts count characters.
//!
//! - `text`: character sequences (white space, trimming, order).
//! - `tokenable`: the regular expression that says what a token is.
//! - `token`: reading one token forwards or backwards.
//! - `grammar`: phrase types, rule sets and rules.
//! - `template`: preparing a grammar (reading each rule into pieces).
//! - `tree`: syntax trees.
//! - `phrase`: reading the first phrase of a text by a prepared grammar.
//! - `phrase_pieces`: the placeholders of a phrase are those of its rule.
//! - `phrase_choice`: which rule a phrase is read by, where several read as far.
//! - `parse`: reading a whole text directly from the rule patterns.
//! - `render`: the handlebars registry, render data and line-feed flags.
//! - `assemble`: rendering a syntax tree in a target grammar.
//! - `language`: reading a language file (JSON) into plain values and a grammar.

pub mod text;
pub mod tokenable;
pub mod token;
pub mod grammar;
pub mod template;
pub mod tree;
pub mod phrase;
pub mod phrase_pieces;
pub mod phrase_choice;
pub mod parse;
pub mod render;
pub mod assemble;
pub mod language;

pub use assemble::assemble;
pub use parse::parse;
pub use phrase::first_phrase;
pub use template::find_template;
pub use token::{token_from, token_from_reverse, token_from_s};
pub use tree::{Expression, SyntaxTree};
