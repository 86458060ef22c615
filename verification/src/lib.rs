//! A small rule-based text tokenization engine: an ordered set of typed,
//! prioritized pattern rules scans a line of text and produces non-overlapping
//! labeled spans, resolving conflicts between rules by priority. A lightweight
//! literal-substring matcher serves containment and counting queries that need
//! no pattern semantics.

pub mod literal;
pub mod pattern;
pub mod rules;
pub mod token;

pub use crate::literal::FastMatcher;
pub use crate::rules::InvalidPatternError;
pub use crate::rules::RegexRule;
pub use crate::rules::TextParser;
pub use crate::token::Token;
pub use crate::token::TokenType;
