//! Conversion of well-formed XML documents into JSON-like values.
//!
//! An XML document is read as a forward-only stream of structural tokens,
//! built into an element tree while tag nesting is validated, and the tree
//! is then projected onto a JSON-like value in which repeated element or
//! attribute names merge into arrays.

pub mod builder;
pub mod error;
pub mod json;
pub mod laws;
pub mod reader;
pub mod text;
pub mod token;
pub mod tree;

pub use builder::build_spec;
pub use error::ErrorKind;
pub use error::ParseXmlError;
pub use json::JsonValue;
pub use json::to_kv;
pub use text::attributes_to_string;
pub use text::indent;
pub use token::Token;
pub use token::TokenAttribute;
pub use tree::XmlData;
pub use tree::XmlDocument;
