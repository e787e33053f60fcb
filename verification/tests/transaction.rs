use std::sync::atomic::{AtomicU32, Ordering};
use std::sync::Arc;
use t51core::identity::{ComponentId, EntityId, FlagId, ShardKey};
use t51core::transaction::TransactionContext;

#[test]
fn ids_come_from_the_shared_counter() {
    let counter = Arc::new(AtomicU32::new(10));
    let mut ctx: TransactionContext<u8> = TransactionContext::new(counter.clone());
    let mut other = ctx.fork();
    let a: ComponentId = FlagId::new(1);
    assert_eq!(ctx.add(ShardKey::new(&[a]), vec![1]), EntityId(10));
    assert_eq!(other.add(ShardKey::new(&[a]), vec![2]), EntityId(11));
    assert_eq!(counter.load(Ordering::SeqCst), 12);
    assert_eq!(ctx.pending_count(), 1);
}

#[test]
fn batch_commit_gives_consecutive_ids() {
    let mut ctx: TransactionContext<u8> = TransactionContext::new(Arc::new(AtomicU32::new(0)));
    let a: ComponentId = FlagId::new(1);
    let b: ComponentId = FlagId::new(2);
    ctx.add(ShardKey::new(&[a, b]), vec![9, 9]);
    let mut batcher = ctx.batch(ShardKey::new(&[a, b]));
    batcher.add(vec![1, 2]);
    batcher.add(vec![3, 4]);
    let ids = batcher.commit().clone();
    assert_eq!(ids, vec![EntityId(0), EntityId(1), EntityId(2)]);
    assert_eq!(batcher.def.columns, vec![vec![9, 1, 3], vec![9, 2, 4]]);
}

#[test]
fn consecutive_ids_follow_the_drawn_start() {
    let mut ids = vec![t51core::identity::EntityId(1)];
    t51core::transaction::append_consecutive_ids(&mut ids, u32::MAX - 1, 3);
    assert_eq!(
        ids,
        vec![
            t51core::identity::EntityId(1),
            t51core::identity::EntityId(u32::MAX - 1),
            t51core::identity::EntityId(u32::MAX),
            t51core::identity::EntityId(0),
        ]
    );
}
