use alengine::ecs::entity::{Entity, EntityPool};

#[test]
fn spawn_numbers_new_entities_in_order() {
    let mut pool = EntityPool::new();
    let a = pool.spawn();
    let b = pool.spawn();
    assert_eq!(a, Entity::new(0, 0));
    assert_eq!(b, Entity::new(1, 0));
    assert!(pool.is_alive(a));
    assert!(pool.is_alive(b));
}

#[test]
fn despawn_kills_and_reports_once() {
    let mut pool = EntityPool::new();
    let a = pool.spawn();
    assert!(pool.despawn(a));
    assert!(!pool.is_alive(a));
    assert!(!pool.despawn(a));
}

#[test]
fn despawned_index_is_recycled_with_next_generation() {
    let mut pool = EntityPool::new();
    let a = pool.spawn();
    let _b = pool.spawn();
    assert!(pool.despawn(a));
    let c = pool.spawn();
    assert_eq!(c, Entity::new(0, 1));
    assert!(pool.is_alive(c));
    assert!(!pool.is_alive(a));
}

#[test]
fn stale_handle_stays_dead_after_many_spawns() {
    let mut pool = EntityPool::new();
    let a = pool.spawn();
    assert!(pool.despawn(a));
    for _ in 0..10 {
        pool.spawn();
    }
    assert!(!pool.is_alive(a));
}

#[test]
fn freed_indices_are_reused_last_freed_first() {
    let mut pool = EntityPool::new();
    let a = pool.spawn();
    let b = pool.spawn();
    let c = pool.spawn();
    assert!(pool.despawn(a));
    assert!(pool.despawn(c));
    assert_eq!(pool.spawn(), Entity::new(2, 1));
    assert_eq!(pool.spawn(), Entity::new(0, 1));
    assert_eq!(pool.spawn(), Entity::new(3, 0));
    assert!(pool.is_alive(b));
}

#[test]
fn unknown_or_wrong_generation_handles_are_dead() {
    let mut pool = EntityPool::new();
    let a = pool.spawn();
    assert!(!pool.is_alive(Entity::new(5, 0)));
    assert!(!pool.is_alive(Entity::new(a.index, 1)));
    assert!(!pool.despawn(Entity::new(a.index, 1)));
    assert!(pool.is_alive(a));
}

#[test]
fn despawn_leaves_other_entities_alive() {
    let mut pool = EntityPool::new();
    let a = pool.spawn();
    let b = pool.spawn();
    assert!(pool.despawn(b));
    assert!(pool.is_alive(a));
}
