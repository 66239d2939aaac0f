pub use crate::allocating::{remove_html_tags, sanitize_string, AllocatingSanitizer};
pub use crate::fast::remove_brackets;
pub use crate::input::TextSource;
