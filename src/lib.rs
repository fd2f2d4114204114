//! A markup parser that builds a mutable document tree.
//!
//! Characters are read by a tokenizer, tokens are applied to an arena of
//! nodes by a tree constructor, and the finished tree can be traversed and
//! edited through node identities.
pub mod dom;
pub mod parser;
pub mod tokenizer;
pub mod util;

pub use dom::{
    AtPosition, Attribute, DomError, ElementIdentifier, HtmlClass, HtmlDom, HtmlDomElement, Node,
    NodeData, NodeKind, WithIdAttr, WithTagName, ROOT,
};
pub use parser::{parse_html, HtmlParser, InsertionMode, ParseError};
pub use tokenizer::{Token, Tokenizer};
pub use util::Either;
