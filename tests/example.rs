use unowned_buf::{UnownedReadBuffer, UnownedWriteBuffer};

#[test]
pub fn example_dummy() {
    let read_buf: UnownedReadBuffer<0x4000> = UnownedReadBuffer::new();
    let write_buf: UnownedWriteBuffer<0x4000> = UnownedWriteBuffer::new();
    assert_eq!(read_buf.available(), 0);
    assert_eq!(write_buf.flushable(), 0);
}
