//! Parsing and serialization of hosts-file text: comments, blank lines and
//! address-to-hostname entries, kept in order so that a document can be read,
//! edited and written back.

pub mod text;
pub mod line;
pub mod document;

pub use document::HostsFile;
pub use line::{HostsFileHost, HostsFileLine, ParseError};
