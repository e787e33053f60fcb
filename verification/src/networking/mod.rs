pub mod buffer;
pub mod chunk;
pub mod chunkpool;
