//! Valve Data Format: the binary key-value stream, and the application
//! catalog that frames it.

pub mod error;
pub mod laws;
pub mod lookup;
pub mod reader;
pub mod text;
pub mod appinfo;
pub mod decode;
pub mod encode;
pub mod value;
