use t51core::identity::{ComponentId, EntityId, FlagId, ShardKey};

#[test]
fn flag_ids_are_single_bits() {
    let id: ComponentId = FlagId::new(5);
    assert_eq!(id.id(), 32);
    assert_eq!(id.indexer(), 5);
    let other: ComponentId = FlagId::new(5);
    assert!(id.equals(&other));
    assert!(!id.equals(&FlagId::new(6)));
}

#[test]
fn key_set_operations() {
    let a: ComponentId = FlagId::new(0);
    let b: ComponentId = FlagId::new(3);
    let c: ComponentId = FlagId::new(63);
    let key = ShardKey::new(&[a, b]);
    assert_eq!(key.bits(), 0b1001);
    assert_eq!(key.key_count(), 2);
    assert!(key.contains(&b));
    assert!(!key.contains(&c));
    let bigger = key.with(&c);
    assert_eq!(bigger.bits(), 0b1001 | (1u64 << 63));
    assert!(key.is_subset_of(&bigger));
    assert!(!bigger.is_subset_of(&key));
    assert_eq!(bigger.without(&c).bits(), key.bits());
    let ids: Vec<usize> = bigger.decompose().iter().map(|f| f.indexer()).collect();
    assert_eq!(ids, vec![0, 3, 63]);
    assert!(ShardKey::new(&ids.iter().map(|&i| FlagId::new(i)).collect::<Vec<ComponentId>>()).equals(&bigger));
    assert_eq!(key.union(&ShardKey::new(&[c])).bits(), bigger.bits());
}

#[test]
fn key_insert_then_remove_restores_it() {
    let a: ComponentId = FlagId::new(1);
    let b: ComponentId = FlagId::new(2);
    let mut key = ShardKey::new(&[a]);
    key.insert(&b);
    assert_eq!(key.bits(), 0b110);
    key.remove(&b);
    assert_eq!(key.bits(), 0b10);
    assert_eq!(ShardKey::empty().bits(), 0);
    assert_eq!(ShardKey::from_bits(7).key_count(), 3);
}

#[test]
fn entity_id_conversions() {
    let id = EntityId::from(12u32);
    assert_eq!(id.index(), 12);
    assert_eq!(id.value(), 12);
    assert_eq!(EntityId::from_i32(7).to_i32(), 7);
}
