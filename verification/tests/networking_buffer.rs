use t51core::networking::buffer::Buffer;
use t51core::networking::chunk::CHUNK_SIZE;
use t51core::networking::chunkpool::ChunkPool;

#[test]
fn produce_then_consume_is_fifo() {
    let mut pool = ChunkPool::new();
    let mut buffer = Buffer::new(&mut pool);
    assert!(buffer.is_drained());
    buffer.produce(&[1, 2, 3], &mut pool);
    buffer.produce(&[4, 5], &mut pool);
    assert_eq!(buffer.front_data(), &[1, 2, 3, 4, 5]);
    assert!(!buffer.consume(2, &mut pool));
    assert_eq!(buffer.front_data(), &[3, 4, 5]);
    assert!(buffer.consume(3, &mut pool));
    assert!(buffer.is_drained());
}

#[test]
fn full_chunk_brings_in_another() {
    let mut pool = ChunkPool::new();
    let mut buffer = Buffer::new(&mut pool);
    let data = vec![7u8; CHUNK_SIZE];
    buffer.produce(&data, &mut pool);
    assert_eq!(buffer.chunk_count(), 2);
    assert_eq!(buffer.free_space(), CHUNK_SIZE);
    assert!(buffer.consume(CHUNK_SIZE, &mut pool));
    assert_eq!(buffer.chunk_count(), 1);
    assert!(buffer.is_drained());
    assert_eq!(pool.len(), 1);
}

#[test]
fn chunk_pool_reuses_chunks() {
    let mut pool = ChunkPool::new();
    let chunk = pool.allocate();
    assert_eq!(pool.len(), 0);
    pool.reclaim(chunk);
    assert_eq!(pool.len(), 1);
    let again = pool.allocate();
    assert_eq!(again.remaining_data(), 0);
    assert_eq!(pool.len(), 0);
}

#[test]
fn chunk_pool_hands_back_a_chunk_as_it_was_reclaimed() {
    let mut pool = ChunkPool::new();
    let mut chunk = pool.allocate();
    chunk.write(&[9, 8, 7]);
    pool.reclaim(chunk);
    let again = pool.allocate();
    assert_eq!(again.remaining_data(), 3);
    assert_eq!(again.data_slice(), &[9, 8, 7]);
}
