//! Fixed-capacity read and write buffers that do not own the stream they
//! buffer: every operation takes the byte source or sink as an argument.
mod storage;
pub mod laws;
pub mod read_buffer;
pub mod stream;
pub mod utf8;
pub mod write_buffer;

pub use read_buffer::{BorrowedReadBuffer, ReadState, UnownedReadBuffer};
pub use stream::{BufError, ByteSink, ByteSource, MemorySource};
pub use write_buffer::{BorrowedWriteBuffer, UnownedWriteBuffer};
