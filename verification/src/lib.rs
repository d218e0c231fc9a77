//! Parsers for the JSON documents served by the Binance options ticker
//! endpoint: an array of objects whose numeric fields are either plain
//! integers or decimals encoded as JSON strings.
//!
//! Two engines are provided. The eager engine (`token`, `ast`) tokenizes the
//! whole input and builds an abstract syntax tree of spans. The lazy engine
//! (`cursor`, `node`) materializes nothing: a caller walks down into the one
//! value it wants through typed node handles, and only the text on the way
//! to that value is ever scanned.

pub mod ast;
pub mod cursor;
pub mod node;
pub mod scan;
pub mod token;
pub mod utils;
