pub mod primitives;
pub mod message;
pub mod codec;
pub mod protocol;
pub mod laws;
