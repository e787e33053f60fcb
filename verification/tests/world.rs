use std::sync::atomic::AtomicU32;
use std::sync::Arc;
use t51core::identity::{ComponentId, EntityId, FlagId, ShardKey};
use t51core::transaction::TransactionContext;
use t51core::world::{CompDef, GameState, ShardEvent, TransactionError};

#[derive(Debug, Clone, PartialEq)]
enum Comp {
    A(i32),
    B(u64),
    C { x: i32, y: i32 },
}

fn comp_ids() -> (ComponentId, ComponentId, ComponentId, ComponentId) {
    (FlagId::new(0), FlagId::new(1), FlagId::new(2), FlagId::new(3))
}

fn new_world() -> (GameState<Comp>, TransactionContext<Comp>) {
    let (e, _, _, _) = comp_ids();
    (GameState::new(e), TransactionContext::new(Arc::new(AtomicU32::new(0))))
}

fn coords(state: &GameState<Comp>, id: u32) -> (u64, usize) {
    let (k, l) = state.entity_coords(EntityId(id)).unwrap();
    (k.bits(), l)
}

#[test]
fn world3_test_add_entity() {
    let (e, a, b, c) = comp_ids();
    let (mut state, mut ctx) = new_world();

    {
        let mut batcher = ctx.batch(ShardKey::new(&[a, b]));
        batcher.add(vec![Comp::A(1), Comp::B(1)]);
        batcher.add(vec![Comp::A(2), Comp::B(2)]);
        batcher.commit();
    }

    ctx.add(ShardKey::new(&[a, b, c]), vec![Comp::A(3), Comp::B(3), Comp::C { x: 3, y: 3 }]);

    state.process_context(&mut ctx);

    assert_eq!(state.entity_count(), 3);
    assert_eq!(state.shard_count(), 2);
    assert_eq!(coords(&state, 0), (ShardKey::new(&[e, a, b]).bits(), 0));
    assert_eq!(coords(&state, 1), (ShardKey::new(&[e, a, b]).bits(), 1));
    assert_eq!(coords(&state, 2), (ShardKey::new(&[e, a, b, c]).bits(), 0));
}

#[test]
fn world3_test_remove_entity() {
    let (_, a, b, _) = comp_ids();
    let (mut state, mut ctx) = new_world();

    {
        let mut batcher = ctx.batch(ShardKey::new(&[a, b]));
        batcher.add(vec![Comp::A(1), Comp::B(1)]);
        batcher.add(vec![Comp::A(2), Comp::B(2)]);
        batcher.add(vec![Comp::A(3), Comp::B(3)]);
        batcher.add(vec![Comp::A(4), Comp::B(4)]);
        batcher.commit();
    }

    state.process_context(&mut ctx);
    assert_eq!(state.entity_count(), 4);
    assert_eq!(coords(&state, 0).1, 0);
    assert_eq!(coords(&state, 1).1, 1);
    assert_eq!(coords(&state, 2).1, 2);
    assert_eq!(coords(&state, 3).1, 3);

    ctx.delete(EntityId::from(0u32));

    state.process_context(&mut ctx);
    assert_eq!(state.entity_count(), 3);
    assert_eq!(coords(&state, 1).1, 1);
    assert_eq!(coords(&state, 2).1, 2);
    assert_eq!(coords(&state, 3).1, 0);

    ctx.delete(EntityId::from(1u32));

    state.process_context(&mut ctx);
    assert_eq!(state.entity_count(), 2);
    assert_eq!(coords(&state, 2).1, 1);
    assert_eq!(coords(&state, 3).1, 0);

    ctx.delete(EntityId::from(3u32));

    state.process_context(&mut ctx);
    assert_eq!(state.entity_count(), 1);
    assert_eq!(coords(&state, 2).1, 0);

    ctx.delete(EntityId::from(2u32));

    state.process_context(&mut ctx);
    assert_eq!(state.entity_count(), 0);
}

#[test]
fn world3_test_ingest_system_transactions() {
    let (_, a, b, _) = comp_ids();
    let (mut state, mut ctx) = new_world();
    // The context a system records into, sharing the id counter of the world's context.
    let mut system_ctx = ctx.fork();

    {
        let mut batcher = ctx.batch(ShardKey::new(&[a, b]));
        batcher.add(vec![Comp::A(0), Comp::B(0)]);
        batcher.add(vec![Comp::A(1), Comp::B(1)]);
        batcher.add(vec![Comp::A(2), Comp::B(2)]);
        batcher.commit();
    }

    // Process the initial state
    state.process_context(&mut ctx);
    state.process_context(&mut system_ctx);

    assert_eq!(state.entity_count(), 3);
    assert_eq!(coords(&state, 0).1, 0);
    assert_eq!(coords(&state, 1).1, 1);
    assert_eq!(coords(&state, 2).1, 2);

    // The system adds an entity and removes an existing one
    system_ctx.add(ShardKey::new(&[a, b]), vec![Comp::A(3), Comp::B(3)]);
    system_ctx.delete(EntityId::from(0u32));

    state.process_context(&mut ctx);
    state.process_context(&mut system_ctx);

    assert_eq!(state.entity_count(), 3);
    assert_eq!(coords(&state, 1).1, 1);
    assert_eq!(coords(&state, 2).1, 0);
    assert_eq!(coords(&state, 3).1, 2);
}

#[test]
fn process_context_reports_populated_and_emptied_shards() {
    let (e, a, _, c) = comp_ids();
    let (mut state, mut ctx) = new_world();
    let id = ctx.add(ShardKey::new(&[a]), vec![Comp::A(7)]);
    let events = state.process_context(&mut ctx);
    assert_eq!(events.len(), 1);
    match &events[0] {
        ShardEvent::Populated(k) => assert_eq!(k.bits(), ShardKey::new(&[e, a]).bits()),
        ShardEvent::Emptied(_) => panic!("expected a populated shard"),
    }
    assert_eq!(state.value_of(id, 0), Some(&Comp::A(7)));
    assert_eq!(state.value_of(id, 1), None);

    ctx.add(ShardKey::new(&[c]), vec![Comp::C { x: 1, y: 2 }]);
    ctx.delete(id);
    let events = state.process_context(&mut ctx);
    assert_eq!(events.len(), 2);
    assert!(matches!(&events[0], ShardEvent::Emptied(k) if k.bits() == ShardKey::new(&[e, a]).bits()));
    assert!(matches!(&events[1], ShardEvent::Populated(k) if k.bits() == ShardKey::new(&[e, c]).bits()));
    assert_eq!(state.entity_count(), 1);
    assert!(state.entity_coords(id).is_none());
    // The shard of the removed entity stays, empty.
    assert_eq!(state.shard_count(), 2);
}

#[test]
fn deleting_an_unknown_entity_changes_nothing() {
    let (_, a, _, _) = comp_ids();
    let (mut state, mut ctx) = new_world();
    ctx.add(ShardKey::new(&[a]), vec![Comp::A(1)]);
    state.process_context(&mut ctx);
    ctx.delete(EntityId(99));
    let events = state.process_context(&mut ctx);
    assert_eq!(events.len(), 0);
    assert_eq!(state.entity_count(), 1);
    assert_eq!(coords(&state, 0).1, 0);
}

#[derive(Debug, Clone, PartialEq)]
enum Part {
    Pos { x: i32, y: i32 },
    Int(i32),
    Float(f32),
}

#[test]
fn test_edit_entity() {
    let some: ComponentId = FlagId::new(1);
    let int: ComponentId = FlagId::new(2);
    let float: ComponentId = FlagId::new(3);
    let mut state: GameState<Part> = GameState::new(FlagId::new(0));
    let mut ctx: TransactionContext<Part> = TransactionContext::new(Arc::new(AtomicU32::new(0)));

    let base = ShardKey::new(&[some, int]);
    ctx.add(base, vec![Part::Pos { x: 1, y: 1 }, Part::Int(1)]);
    ctx.add(base, vec![Part::Pos { x: 2, y: 2 }, Part::Int(2)]);
    ctx.add(base, vec![Part::Pos { x: 3, y: 3 }, Part::Int(3)]);
    state.process_context(&mut ctx);

    assert_eq!(state.entity_count(), 3);
    assert_eq!(state.shard_count(), 1);

    // Add a new component to an existing entity, resulting in a new shard
    let key = state.edit_base(EntityId(1)).expect("Entity must exist");
    let events = state.process_edit(EntityId(1), key.with(&float), vec![CompDef::Nop, CompDef::Nop, CompDef::Value(Part::Float(5.0))]);
    assert_eq!(events.len(), 1);

    assert_eq!(state.entity_count(), 3);
    assert_eq!(state.shard_count(), 2);
    assert_eq!(state.value_of(EntityId(1), 0), Some(&Part::Pos { x: 2, y: 2 }));
    assert_eq!(state.value_of(EntityId(1), 1), Some(&Part::Int(2)));
    assert_eq!(state.value_of(EntityId(1), 2), Some(&Part::Float(5.0)));
    // The last entity of the old shard took the place of the moved one.
    assert_eq!(state.entity_coords(EntityId(2)).unwrap().1, 1);

    // Move an additional entity to the new shard
    let key = state.edit_base(EntityId(0)).expect("Entity must exist");
    state.process_edit(EntityId(0), key.with(&float), vec![CompDef::Nop, CompDef::Nop, CompDef::Value(Part::Float(5.0))]);

    assert_eq!(state.entity_count(), 3);
    assert_eq!(state.shard_count(), 2);
    assert_eq!(state.entity_coords(EntityId(0)).unwrap().1, 1);

    // Edit entity in-place, not resulting in a new shard
    let key = state.edit_base(EntityId(2)).expect("Entity must exist");
    let events = state.process_edit(EntityId(2), key, vec![CompDef::Value(Part::Pos { x: 1, y: 1 }), CompDef::Nop]);
    assert_eq!(events.len(), 0);

    assert_eq!(state.entity_count(), 3);
    assert_eq!(state.shard_count(), 2);
    assert_eq!(state.value_of(EntityId(2), 0), Some(&Part::Pos { x: 1, y: 1 }));
    assert_eq!(state.value_of(EntityId(2), 1), Some(&Part::Int(3)));
}

#[test]
fn edit_of_unknown_entity_is_refused_and_ignored() {
    let mut state: GameState<Part> = GameState::new(FlagId::new(0));
    assert_eq!(state.edit_base(EntityId(4)).err(), Some(TransactionError::EntityNotFound(EntityId(4))));
    let events = state.process_edit(EntityId(4), ShardKey::new(&[FlagId::new(1)]), vec![CompDef::Value(Part::Int(1))]);
    assert_eq!(events.len(), 0);
    assert_eq!(state.entity_count(), 0);
}

#[test]
fn edit_that_drops_a_component_empties_the_old_shard() {
    let some: ComponentId = FlagId::new(1);
    let int: ComponentId = FlagId::new(2);
    let mut state: GameState<Part> = GameState::new(FlagId::new(0));
    let mut ctx: TransactionContext<Part> = TransactionContext::new(Arc::new(AtomicU32::new(0)));
    let id = ctx.add(ShardKey::new(&[some, int]), vec![Part::Pos { x: 4, y: 5 }, Part::Int(6)]);
    state.process_context(&mut ctx);

    let key = state.edit_base(id).unwrap().without(&some);
    let events = state.process_edit(id, key, vec![CompDef::Nop]);
    assert_eq!(events.len(), 2);
    assert!(matches!(events[0], ShardEvent::Emptied(_)));
    assert!(matches!(events[1], ShardEvent::Populated(_)));
    assert_eq!(state.value_of(id, 0), Some(&Part::Int(6)));
    assert_eq!(state.value_of(id, 1), None);
    assert_eq!(state.entity_coords(id).unwrap().0.bits(), ShardKey::new(&[FlagId::new(0), int]).bits());
}

#[test]
fn admits_fresh_context_and_refuses_known_ids() {
    let (e, a, b, _) = comp_ids();
    let (mut state, mut ctx) = new_world();
    ctx.add(ShardKey::new(&[a, b]), vec![Comp::A(1), Comp::B(1)]);
    assert!(state.admits(&ctx));
    state.process_context(&mut ctx);

    // A context with a counter of its own hands out id 0 again.
    let mut other: TransactionContext<Comp> = TransactionContext::new(Arc::new(AtomicU32::new(0)));
    other.add(ShardKey::new(&[a]), vec![Comp::A(2)]);
    assert!(!state.admits(&other));

    // The entity id component cannot be given a value.
    let mut with_id: TransactionContext<Comp> = TransactionContext::new(Arc::new(AtomicU32::new(7)));
    with_id.add(ShardKey::new(&[e, a]), vec![Comp::B(7), Comp::A(7)]);
    assert!(!state.admits(&with_id));

    // A context sharing nothing with the world is fine.
    let mut fresh: TransactionContext<Comp> = TransactionContext::new(Arc::new(AtomicU32::new(5)));
    fresh.add(ShardKey::new(&[a]), vec![Comp::A(5)]);
    assert!(state.admits(&fresh));
}

#[test]
fn world_test_add_entity() {
    let some: ComponentId = FlagId::new(1);
    let int: ComponentId = FlagId::new(2);
    let float: ComponentId = FlagId::new(3);
    let mut state: GameState<Part> = GameState::new(FlagId::new(0));
    let mut ctx: TransactionContext<Part> = TransactionContext::new(Arc::new(AtomicU32::new(0)));

    ctx.add(ShardKey::new(&[some, int]), vec![Part::Pos { x: 1, y: 1 }, Part::Int(1)]);
    ctx.add(ShardKey::new(&[some, int]), vec![Part::Pos { x: 2, y: 2 }, Part::Int(2)]);
    ctx.add(ShardKey::new(&[some, int, float]), vec![Part::Pos { x: 3, y: 3 }, Part::Int(4), Part::Float(5.0)]);

    state.process_context(&mut ctx);

    assert_eq!(state.entity_count(), 3);
    assert_eq!(state.shard_count(), 2);
}

#[test]
fn world_test_remove_entity() {
    let some: ComponentId = FlagId::new(1);
    let int: ComponentId = FlagId::new(2);
    let mut state: GameState<Part> = GameState::new(FlagId::new(0));
    let mut ctx: TransactionContext<Part> = TransactionContext::new(Arc::new(AtomicU32::new(0)));

    ctx.add(ShardKey::new(&[int]), vec![Part::Int(1)]);
    ctx.add(ShardKey::new(&[some, int]), vec![Part::Pos { x: 1, y: 1 }, Part::Int(2)]);
    ctx.add(ShardKey::new(&[some, int]), vec![Part::Pos { x: 2, y: 2 }, Part::Int(3)]);

    state.process_context(&mut ctx);

    assert_eq!(state.entity_count(), 3);
    assert_eq!(state.shard_count(), 2);

    // Test removing entity in the middle
    ctx.delete(EntityId(1));
    state.process_context(&mut ctx);

    assert_eq!(state.entity_count(), 2);
    assert_eq!(state.shard_count(), 2);

    // Test removing all entities
    ctx.delete(EntityId(0));
    ctx.delete(EntityId(2));
    state.process_context(&mut ctx);

    assert_eq!(state.entity_count(), 0);
    assert_eq!(state.shard_count(), 2);
}

#[test]
fn world_test_ingest_system_transactions() {
    let some: ComponentId = FlagId::new(1);
    let int: ComponentId = FlagId::new(2);
    let float: ComponentId = FlagId::new(3);
    let mut state: GameState<Part> = GameState::new(FlagId::new(0));
    let mut ctx: TransactionContext<Part> = TransactionContext::new(Arc::new(AtomicU32::new(0)));
    let mut system_ctx = ctx.fork();

    // Add a single entity initially and ensure the state is correct
    ctx.add(ShardKey::new(&[some, int]), vec![Part::Pos { x: 1, y: 1 }, Part::Int(1)]);
    state.process_context(&mut ctx);

    assert_eq!(state.entity_count(), 1);
    assert_eq!(state.shard_count(), 1);

    // The system edits the existing entity and adds two new ones
    let key = state.edit_base(EntityId(0)).expect("Entity must exist");
    state.process_edit(EntityId(0), key.with(&float), vec![CompDef::Nop, CompDef::Nop, CompDef::Value(Part::Float(5.0))]);
    system_ctx.add(ShardKey::new(&[some, int]), vec![Part::Pos { x: 2, y: 2 }, Part::Int(2)]);
    system_ctx.add(ShardKey::new(&[some, int]), vec![Part::Pos { x: 3, y: 3 }, Part::Int(3)]);
    state.process_context(&mut ctx);
    state.process_context(&mut system_ctx);

    assert_eq!(state.entity_count(), 3);
    assert_eq!(state.shard_count(), 2);
}
