use std::sync::atomic::AtomicU32;
use std::sync::Arc;
use t51core::identity::{ComponentId, EntityId, FlagId, ShardKey};
use t51core::system::SystemShards;
use t51core::transaction::TransactionContext;
use t51core::world::{CompDef, GameState};

#[derive(Debug, Clone, PartialEq)]
enum Value {
    Pos { x: i32, y: i32 },
    Int(i32),
    Float(f32),
}

fn ids() -> (ComponentId, ComponentId, ComponentId, ComponentId) {
    (FlagId::new(0), FlagId::new(1), FlagId::new(2), FlagId::new(3))
}

/// What the system sees: the id, the integer and the position of every entity of its shards.
fn collect(state: &GameState<Value>, sys: &SystemShards) -> Vec<(EntityId, Value, Value)> {
    let mut out = Vec::new();
    for id in sys.entities(state) {
        let pos = state.value_of(id, 0).unwrap().clone();
        let int = state.value_of(id, 1).unwrap().clone();
        out.push((id, int, pos));
    }
    out
}

#[test]
fn test_run_systems() {
    let (e, pos, int, float) = ids();
    let mut state: GameState<Value> = GameState::new(e);
    let mut ctx: TransactionContext<Value> = TransactionContext::new(Arc::new(AtomicU32::new(0)));
    let mut system = SystemShards::new(ShardKey::new(&[e, pos, int]));

    // Base scenario
    let base = ShardKey::new(&[pos, int]);
    ctx.add(base, vec![Value::Pos { x: 0, y: 0 }, Value::Int(0)]);
    ctx.add(base, vec![Value::Pos { x: 1, y: 1 }, Value::Int(1)]);
    ctx.add(base, vec![Value::Pos { x: 2, y: 2 }, Value::Int(2)]);
    ctx.add(base.with(&float), vec![Value::Pos { x: 3, y: 3 }, Value::Int(3), Value::Float(5.0)]);

    let events = state.process_context(&mut ctx);
    system.hear_all(&events);

    // Check state
    let state_now = collect(&state, &system);

    assert_eq!(state_now.len(), 4);
    assert_eq!(state_now[0], (EntityId(0), Value::Int(0), Value::Pos { x: 0, y: 0 }));
    assert_eq!(state_now[1], (EntityId(1), Value::Int(1), Value::Pos { x: 1, y: 1 }));
    assert_eq!(state_now[2], (EntityId(2), Value::Int(2), Value::Pos { x: 2, y: 2 }));
    assert_eq!(state_now[3], (EntityId(3), Value::Int(3), Value::Pos { x: 3, y: 3 }));

    // Remove the entity that was in it's own shard
    ctx.delete(EntityId(3));
    let events = state.process_context(&mut ctx);
    system.hear_all(&events);

    // Ensure removed component is not in the results
    let state_now = collect(&state, &system);

    assert_eq!(state_now.len(), 3);
    assert_eq!(state_now[0], (EntityId(0), Value::Int(0), Value::Pos { x: 0, y: 0 }));
    assert_eq!(state_now[1], (EntityId(1), Value::Int(1), Value::Pos { x: 1, y: 1 }));
    assert_eq!(state_now[2], (EntityId(2), Value::Int(2), Value::Pos { x: 2, y: 2 }));

    // Edit entity, requiring a remove/add
    let key = state.edit_base(EntityId(1)).expect("Entity must exist");
    let events = state.process_edit(
        EntityId(1),
        key.with(&float),
        vec![CompDef::Nop, CompDef::Value(Value::Int(5)), CompDef::Value(Value::Float(5.0))],
    );
    system.hear_all(&events);

    // Ensure edited entity is in the results set
    let state_now = collect(&state, &system);

    assert_eq!(state_now.len(), 3);
    assert_eq!(state_now[0], (EntityId(0), Value::Int(0), Value::Pos { x: 0, y: 0 }));
    assert_eq!(state_now[1], (EntityId(2), Value::Int(2), Value::Pos { x: 2, y: 2 }));
    assert_eq!(state_now[2], (EntityId(1), Value::Int(5), Value::Pos { x: 1, y: 1 }));
}

#[test]
fn system_ignores_shards_it_does_not_require() {
    let (e, pos, int, _) = ids();
    let mut state: GameState<Value> = GameState::new(e);
    let mut ctx: TransactionContext<Value> = TransactionContext::new(Arc::new(AtomicU32::new(0)));
    let mut system = SystemShards::new(ShardKey::new(&[int]));
    assert!(!system.check_shard(&ShardKey::new(&[e, pos])));
    assert!(system.check_shard(&ShardKey::new(&[e, pos, int])));

    ctx.add(ShardKey::new(&[pos]), vec![Value::Pos { x: 1, y: 2 }]);
    let events = state.process_context(&mut ctx);
    system.hear_all(&events);
    assert_eq!(system.shard_count(), 0);

    ctx.add(ShardKey::new(&[int]), vec![Value::Int(4)]);
    let events = state.process_context(&mut ctx);
    system.hear_all(&events);
    assert_eq!(system.shard_count(), 1);
    assert_eq!(system.shard_key(0).bits(), ShardKey::new(&[e, int]).bits());
}

#[test]
fn system_visits_its_shards_in_order_and_their_entities_by_location() {
    let (e, pos, int, float) = ids();
    let mut state: GameState<Value> = GameState::new(e);
    let mut ctx: TransactionContext<Value> = TransactionContext::new(Arc::new(AtomicU32::new(0)));
    let mut system = SystemShards::new(ShardKey::new(&[int]));

    ctx.add(ShardKey::new(&[int, float]), vec![Value::Int(0), Value::Float(0.5)]);
    ctx.add(ShardKey::new(&[int]), vec![Value::Int(1)]);
    ctx.add(ShardKey::new(&[pos]), vec![Value::Pos { x: 0, y: 0 }]);
    ctx.add(ShardKey::new(&[int, float]), vec![Value::Int(3), Value::Float(1.5)]);
    let events = state.process_context(&mut ctx);
    system.hear_all(&events);

    assert_eq!(system.shard_count(), 2);
    assert_eq!(system.entities(&state), vec![EntityId(0), EntityId(3), EntityId(1)]);

    ctx.delete(EntityId(0));
    let events = state.process_context(&mut ctx);
    system.hear_all(&events);
    assert_eq!(system.entities(&state), vec![EntityId(3), EntityId(1)]);
}
