use std::cmp::min;
use std::io;
use std::io::Cursor;
use t51core::net::buffer::{Buffer, Ingress, BUF_SIZE_INCREMENT, MAX_BUF_BYTES};

struct MockChannel {
    data: Vec<u8>,
    cursor: usize,
    chunk: usize,
    max_size: usize,
}

impl MockChannel {
    fn new(data: Vec<u8>, chunk: usize, max_size: usize) -> MockChannel {
        MockChannel { data, cursor: 0, chunk, max_size }
    }

    fn clear(&mut self) {
        self.data.clear();
        self.cursor = 0;
    }
}

impl io::Read for MockChannel {
    fn read(&mut self, buf: &mut [u8]) -> io::Result<usize> {
        if self.cursor == self.data.len() {
            return Err(io::ErrorKind::WouldBlock.into());
        }

        let offset = min(min(self.chunk, buf.len()), self.data.len() - self.cursor);
        buf[..offset].copy_from_slice(&self.data[self.cursor..(self.cursor + offset)]);
        self.cursor += offset;
        Ok(offset)
    }
}

impl io::Write for MockChannel {
    fn write(&mut self, buf: &[u8]) -> io::Result<usize> {
        if self.data.len() == self.max_size {
            return Err(io::ErrorKind::WouldBlock.into());
        }

        let count = min(self.chunk, buf.len());
        self.data.extend(&buf[..count]);

        Ok(count)
    }

    fn flush(&mut self) -> io::Result<()> {
        Ok(())
    }
}

/// Writes the buffer out, as the server does: every write must make progress.
fn egress<W: io::Write>(buffer: &mut Buffer, mut writer: W) -> io::Result<usize> {
    let orig_len = buffer.len();
    while buffer.len() > 0 {
        let write_count = writer.write(buffer.read_slice())?;
        assert!(write_count <= buffer.len());
        if !buffer.written(write_count) {
            return Err(io::ErrorKind::WriteZero.into());
        }
    }
    Ok(orig_len - buffer.len())
}

/// Reads into the buffer, as the server does, until the reader is drained or the buffer overruns.
fn ingress<R: io::Read>(buffer: &mut Buffer, mut reader: R) -> io::Result<usize> {
    let orig_len = buffer.len();
    while buffer.has_room() {
        let room = min(buffer.free_capacity(), MAX_BUF_BYTES - buffer.len());
        let mut incoming = vec![0u8; room];
        let read_count = reader.read(&mut incoming)?;
        match buffer.received(&incoming[..read_count]) {
            Ingress::Drained => return Ok(buffer.len() - orig_len),
            Ingress::More => {}
            Ingress::Overrun => break,
        }
    }
    Err(io::Error::new(io::ErrorKind::Other, "Buffer overrun"))
}

#[test]
fn test_roundtrip() {
    let mock_data: Vec<_> = (0..BUF_SIZE_INCREMENT / 2).map(|item| item as u8).collect();
    let mut channel = MockChannel::new(mock_data.clone(), 500, mock_data.len());

    let mut buffer = Buffer::new(BUF_SIZE_INCREMENT);

    let result = ingress(&mut buffer, &mut channel);

    assert!(result.is_err());
    assert_eq!(result.err().unwrap().kind(), io::ErrorKind::WouldBlock);
    assert_eq!(buffer.len(), mock_data.len());
    assert_eq!(buffer.read_slice(), &mock_data[..]);

    channel.clear();
    let count = egress(&mut buffer, &mut channel).unwrap();

    assert_eq!(count, mock_data.len());
    assert_eq!(buffer.len(), 0);
    assert_eq!(channel.data[..], mock_data[..]);
}

#[test]
fn test_egress_error_on_zero_write() {
    let mut zero_vec = vec![];

    let mut buffer = Buffer::new(BUF_SIZE_INCREMENT);

    // The buffer has to have at least some data to trigger the zero write error
    buffer.write(&[1]);

    let result = egress(&mut buffer, &mut zero_vec[..]);

    assert!(result.is_err());
    assert_eq!(result.err().unwrap().kind(), io::ErrorKind::WriteZero);
}

#[test]
fn test_ingress_buffer_overrun() {
    let mock_data: Vec<_> = (0..BUF_SIZE_INCREMENT * 2).map(|item| item as u8).collect();

    let mut buffer = Buffer::new(BUF_SIZE_INCREMENT);

    let result = ingress(&mut buffer, &mock_data[..]);

    assert!(result.is_err());

    let err = result.err().unwrap();

    assert_eq!(err.kind(), io::ErrorKind::Other);
    assert_eq!(err.to_string(), "Buffer overrun")
}

#[test]
fn test_no_err() {
    let mut cursor = Cursor::new(vec![1, 2, 3]);
    let mut buffer = Buffer::new(BUF_SIZE_INCREMENT);

    ingress(&mut buffer, &mut cursor).unwrap();

    assert_eq!(buffer.read_slice(), &[1, 2, 3]);

    let mut cursor = Cursor::new(Vec::<u8>::new());

    egress(&mut buffer, &mut cursor).unwrap();

    assert_eq!(buffer.read_slice(), &Vec::<u8>::new()[..]);

    assert_eq!(&cursor.get_ref()[..], &[1, 2, 3]);
}

#[test]
fn buffer_is_first_in_first_out() {
    let mut buffer = Buffer::new(BUF_SIZE_INCREMENT);
    buffer.write(&[1, 2, 3]);
    buffer.write(&[4, 5]);
    buffer.move_head(2);
    assert_eq!(buffer.read_slice(), &[3, 4, 5]);
    assert!(buffer.written(1));
    assert!(!buffer.written(0));
    assert_eq!(buffer.read_slice(), &[4, 5]);
    buffer.clear();
    assert!(buffer.is_empty());
    assert_eq!(buffer.size(), BUF_SIZE_INCREMENT);
}

#[test]
fn received_reports_progress_and_overrun() {
    let mut buffer = Buffer::new(BUF_SIZE_INCREMENT);
    assert!(matches!(buffer.received(&[]), Ingress::Drained));
    assert!(matches!(buffer.received(&[7; 10]), Ingress::More));
    let rest = vec![8u8; BUF_SIZE_INCREMENT - 10];
    assert!(matches!(buffer.received(&rest), Ingress::Overrun));
    assert!(!buffer.has_room());
    assert_eq!(buffer.len(), BUF_SIZE_INCREMENT);
}

#[test]
fn draining_hands_out_the_bytes_in_order() {
    let mut buffer = Buffer::new(BUF_SIZE_INCREMENT);
    buffer.write(&[1, 2, 3, 4, 5, 6, 7]);
    let mut out = Vec::new();
    for step in [3usize, 1, 3] {
        out.extend_from_slice(&buffer.read_slice()[..step]);
        assert!(buffer.written(step));
    }
    assert!(buffer.is_empty());
    assert_eq!(out, vec![1, 2, 3, 4, 5, 6, 7]);
}

#[test]
fn free_of_is_capacity_less_length() {
    assert_eq!(t51core::net::buffer::free_of(65536, 1000), 64536);
    let mut buffer = Buffer::new(BUF_SIZE_INCREMENT);
    buffer.write(&[1, 2, 3]);
    assert!(buffer.free_capacity() >= BUF_SIZE_INCREMENT - 3);
}
