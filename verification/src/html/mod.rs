//! HTML: tags, the lexer, and the document tree the parser builds.
pub mod document;
pub mod lexer;
pub mod node;
pub mod parser;
pub mod tag;
pub mod token;

pub use document::Attribute;
pub use document::Document;
pub use document::DomId;
pub use document::NodeView;
pub use parser::parse;
pub use tag::Tag;
pub use tag::TagKind;
