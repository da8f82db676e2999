//! Prefixed, type-tagged textual identifiers ("pika ids") carrying a
//! 64-bit time-ordered snowflake, together with the base64 codec used to
//! transport the payload inside the id text.

pub mod base64;
pub mod digits;
pub mod errors;
pub mod pika;
pub mod snowflake;
pub mod utils;
