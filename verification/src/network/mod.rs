pub mod buffer;
pub mod frame;
pub mod stream;
