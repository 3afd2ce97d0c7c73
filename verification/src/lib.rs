//! The core of a terminal front-end that draws what a child process tells it
//! to draw.
//!
//! The child process sends text and vector figures as length-prefixed binary
//! records over a pipe, and a read from a pipe ends wherever it ends. The
//! heart of this crate is the codec for those records:
//!
//! - [`ast`] holds the instructions, and the mathematical model of each;
//! - [`wire`] and [`format`] state the byte layout over those models;
//! - [`serializer`] writes an instruction as the bytes of its record;
//! - [`deserializer`] reassembles instructions from chunks of the stream;
//! - [`laws`] and [`inverse`] prove that the two undo each other and that
//!   the decoder gives the same however the stream is cut.
//!
//! Around the codec, [`terminal`] keeps what was typed and what was received
//! in one session, and [`layout`] places the glyphs of a line of text.
//!
//! Nothing here reads, writes or draws: bytes, events and sizes come in as
//! plain values.

pub mod ast;
pub mod deserializer;
pub mod format;
pub mod inverse;
pub mod laws;
pub mod layout;
pub mod serializer;
pub mod terminal;
pub mod wire;

pub use ast::{
    Figure, FigureContents, FigureContentsData, Line, ParseError, ParsedAST, RgbaImage, Vector2,
};
pub use deserializer::Decoder;
