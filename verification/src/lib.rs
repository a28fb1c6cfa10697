//! Verified text utilities.
//!
//! The core is a streaming tokenizer for delimited text: `scanner` finds the
//! cell and record boundaries in a buffer, `reader` carries the unfinished
//! cell and the quote state from one chunk of a stream to the next,
//! `records` gathers the cells into records, `decoder` turns a raw cell into
//! text or a number, and `stream` holds the laws of the model: the size of
//! the chunks does not show in the output, and no byte is lost on the way.
//!
//! Beside it stand a few small conversions between text and numbers:
//! `binary`, `roman`, `digits` and `number`.

pub mod binary;
pub mod config;
pub mod decoder;
pub mod digits;
pub mod line;
pub mod number;
pub mod reader;
pub mod records;
pub mod roman;
pub mod scanner;
pub mod stream;
pub mod text;

pub use binary::Binary;
pub use config::Config;
pub use decoder::CellParser;
pub use reader::CsvReader;
pub use roman::RomanNumeral;
pub use scanner::YieldEvent;
