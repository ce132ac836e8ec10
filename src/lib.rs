//! A minimal, allocation-free JSON tokenizer.
//!
//! The caller owns a [`JsmnParser`] and a fixed array of [`JsmnTok`] records;
//! [`jsmn_parse`] scans the text once and fills the array with the type, byte
//! span, child count and parent slot of every JSON lexical unit. A scan that
//! runs out of token slots can be resumed with a larger array.
pub mod token;
pub mod model;
pub mod scan;
pub mod laws;

pub use token::{JsmnType, JsmnErr, JsmnTok, JsmnParser};
pub use scan::{jsmn_parse, parse_bytes};
