//! Wire-format and editor-state logic of a Neovim plugin that asks an
//! AI service for tab completions: protobuf encoding and decoding of the
//! messages it exchanges, the framing of the streamed responses, the
//! buffer state it keeps, and the decisions taken on each editor event.

pub mod bytes_buf;
pub mod varint;
pub mod wire;
pub mod decode;
pub mod frame;
pub mod encode;
pub mod stream;
pub mod text;
pub mod buffer;
pub mod session;
pub mod checksum;
pub mod auth;
pub mod certs;
