//! Wire codec and address-pattern matching for a compact, typed message
//! protocol: messages carry a slash-separated path and a list of typed
//! arguments, and are routed by matching the path against glob patterns.

pub mod argument;
pub mod error;
pub mod message;
pub mod pattern;
pub mod wire;

pub use argument::{ArgValue, Argument};
pub use error::Error;
pub use message::{Message, MessageValue};
pub use pattern::{translate_pattern, Pattern};
pub use wire::strchr;
