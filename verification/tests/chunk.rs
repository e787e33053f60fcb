use t51core::networking::chunk::{Chunk, CHUNK_SIZE};

#[test]
fn test_new_chunk() {
    let chunk = Chunk::new();

    assert_eq!(chunk.raw_data().len(), CHUNK_SIZE);
    assert_eq!(chunk.start(), 0);
    assert_eq!(chunk.end(), 0);
}

#[test]
fn test_capacity() {
    let mut chunk = Chunk::new();

    assert_eq!(chunk.capacity(), CHUNK_SIZE);

    chunk.expand(1000);

    assert_eq!(chunk.capacity(), CHUNK_SIZE - 1000)
}

#[test]
fn test_remaining_data() {
    let mut chunk = Chunk::new();

    assert_eq!(chunk.remaining_data(), 0);

    chunk.expand(1000);

    assert_eq!(chunk.remaining_data(), 1000);
}

#[test]
fn test_read() {
    let mut chunk = Chunk::new();

    chunk.write(&vec![1, 2, 3, 4]);

    assert_eq!(chunk.read(2), vec![1u8, 2u8]);
    assert_eq!(chunk.start(), 2);
    assert_eq!(chunk.end(), 4);

    // Reading to the end resets the chunk to the empty state
    assert_eq!(chunk.read(2), vec![3u8, 4u8]);
    assert_eq!(chunk.start(), 0);
    assert_eq!(chunk.end(), 0);
}

#[test]
fn test_write() {
    let mut chunk = Chunk::new();

    let items: Vec<u8> = (1..5).collect();

    chunk.write(&items);

    assert_eq!(&chunk.raw_data()[..4], items.as_slice());
    assert_eq!(chunk.start(), 0);
    assert_eq!(chunk.end(), 4);
}

#[test]
fn test_advance() {
    let mut chunk = Chunk::new();

    chunk.expand(5);

    chunk.advance(2);
    assert_eq!(chunk.start(), 2);
    assert_eq!(chunk.end(), 5);

    chunk.advance(3);
    assert_eq!(chunk.start(), 0);
    assert_eq!(chunk.end(), 0);
}

#[test]
fn test_deref_immut() {
    let mut chunk = Chunk::new();

    let chunk_slice: &[u8] = chunk.data_slice();
    assert_eq!(chunk_slice, Vec::<u8>::new().as_slice());

    let data = vec![1, 2, 3, 4];
    chunk.write(&data);

    let chunk_slice: &[u8] = chunk.data_slice();
    assert_eq!(chunk_slice, data.as_slice());
}

#[test]
fn chunk_test_deref_mut() {
    let mut chunk = Chunk::new();

    let chunk_slice: &[u8] = chunk.free_slice();
    assert_eq!(chunk_slice.len(), CHUNK_SIZE);

    chunk.write(&vec![1, 2, 3, 4]);

    let chunk_slice: &[u8] = chunk.free_slice();
    assert_eq!(chunk_slice.len(), CHUNK_SIZE - 4);
}

#[test]
fn chunk_advance_returns_original_start() {
    let mut chunk = Chunk::new();
    chunk.write(&[9, 8, 7]);
    assert_eq!(chunk.advance(1), 0);
    assert_eq!(chunk.advance(1), 1);
    assert_eq!(chunk.data_slice(), &[7u8][..]);
    assert_eq!(chunk.read(1), vec![7u8]);
    assert_eq!(chunk.remaining_data(), 0);
    assert_eq!(chunk.capacity(), CHUNK_SIZE);
}
