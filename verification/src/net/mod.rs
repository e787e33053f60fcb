pub mod bytes;
pub mod channel;
pub mod frame;
pub mod result;
pub mod buffer;
pub mod endpoint;
