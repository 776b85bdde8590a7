pub mod brackets;
pub mod extract;
pub mod laws;
pub mod protocol;
pub mod validate;

pub use brackets::{find_first_unbalanced, BracketType};
pub use extract::{extract_url, extract_url_with, resolve_boundary};
pub use protocol::ProtocolMatcher;
pub use validate::{accepts_parsed, is_valid_url};
