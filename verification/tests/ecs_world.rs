use alengine::ecs::archetype::ComponentTypeId;
use alengine::ecs::world::World;

const POS: ComponentTypeId = ComponentTypeId(1);
const VEL: ComponentTypeId = ComponentTypeId(2);

#[test]
fn insert_then_get_reads_back() {
    let mut w = World::new();
    let e = w.spawn();
    w.insert_component(e, POS, &[1, 2, 3, 4]);
    assert_eq!(w.get_component_bytes(e, POS), Some(&[1u8, 2, 3, 4][..]));
    assert_eq!(w.get_component(e, POS, 4), Some(&[1u8, 2, 3, 4][..]));
    assert_eq!(w.get_component(e, POS, 3), None);
    assert_eq!(w.get_component_bytes(e, VEL), None);
}

#[test]
fn insert_overwrites_an_existing_component() {
    let mut w = World::new();
    let e = w.spawn();
    w.insert_component(e, POS, &[1, 1]);
    w.insert_component(e, POS, &[7, 7]);
    assert_eq!(w.get_component_bytes(e, POS), Some(&[7u8, 7][..]));
    assert_eq!(w.query_raw(POS).len(), 1);
}

#[test]
fn set_component_bytes_needs_the_component() {
    let mut w = World::new();
    let e = w.spawn();
    assert!(!w.set_component_bytes(e, POS, &[1]));
    w.insert_component(e, POS, &[1]);
    assert!(w.set_component_bytes(e, POS, &[5]));
    assert_eq!(w.get_component_bytes(e, POS), Some(&[5u8][..]));
}

#[test]
fn despawn_swap_removes_and_relocates_the_moved_entity() {
    let mut w = World::new();
    let a = w.spawn();
    let b = w.spawn();
    let c = w.spawn();
    w.insert_component(a, POS, &[10]);
    w.insert_component(b, POS, &[20]);
    w.insert_component(c, POS, &[30]);
    w.despawn(a);
    assert!(!w.is_alive(a));
    assert_eq!(w.get_component_bytes(a, POS), None);
    assert_eq!(w.get_component_bytes(b, POS), Some(&[20u8][..]));
    assert_eq!(w.get_component_bytes(c, POS), Some(&[30u8][..]));
    let rows = w.query_raw(POS);
    assert_eq!(rows.len(), 2);
    assert_eq!(rows[0].0, c);
    assert_eq!(rows[0].1, &[30u8][..]);
    assert_eq!(rows[1].0, b);
}

#[test]
fn query_lists_every_holder_of_a_component() {
    let mut w = World::new();
    let a = w.spawn();
    let b = w.spawn();
    w.insert_component(a, POS, &[1, 0]);
    w.insert_component(b, VEL, &[2, 0, 0]);
    let pos = w.query_raw(POS);
    assert_eq!(pos.len(), 1);
    assert_eq!(pos[0].0, a);
    let vel = w.query_raw(VEL);
    assert_eq!(vel.len(), 1);
    assert_eq!(vel[0].0, b);
    assert_eq!(vel[0].1, &[2u8, 0, 0][..]);
    assert!(w.query_raw(ComponentTypeId(99)).is_empty());
}

#[test]
fn despawn_of_an_entity_without_components_only_kills_it() {
    let mut w = World::new();
    let a = w.spawn();
    let b = w.spawn();
    w.insert_component(b, POS, &[4]);
    w.despawn(a);
    assert!(!w.is_alive(a));
    assert!(w.is_alive(b));
    assert_eq!(w.get_component_bytes(b, POS), Some(&[4u8][..]));
}

#[test]
fn second_component_type_keeps_the_first() {
    let mut w = World::new();
    let e = w.spawn();
    w.insert_component(e, POS, &[7, 0, 0, 0]);
    w.insert_component(e, VEL, &[9, 0, 0, 0, 0, 0, 0, 0]);
    assert_eq!(w.get_component(e, VEL, 8), Some(&[9u8, 0, 0, 0, 0, 0, 0, 0][..]));
    assert_eq!(w.get_component(e, POS, 4), Some(&[7u8, 0, 0, 0][..]));
    let pos = w.query_raw(POS);
    assert_eq!(pos.len(), 1);
    assert_eq!(pos[0].0, e);
    assert_eq!(w.query_raw(VEL).len(), 1);
}

#[test]
fn component_order_does_not_matter() {
    let mut w = World::new();
    let a = w.spawn();
    let b = w.spawn();
    w.insert_component(a, POS, &[1]);
    w.insert_component(a, VEL, &[2]);
    w.insert_component(b, VEL, &[20]);
    w.insert_component(b, POS, &[10]);
    assert_eq!(w.get_component_bytes(a, POS), Some(&[1u8][..]));
    assert_eq!(w.get_component_bytes(a, VEL), Some(&[2u8][..]));
    assert_eq!(w.get_component_bytes(b, POS), Some(&[10u8][..]));
    assert_eq!(w.get_component_bytes(b, VEL), Some(&[20u8][..]));
    let pos = w.query_raw(POS);
    assert_eq!(pos.len(), 2);
    assert_eq!(pos[0].0, a);
    assert_eq!(pos[1].0, b);
}

#[test]
fn moving_out_relocates_the_last_row() {
    let mut w = World::new();
    let a = w.spawn();
    let b = w.spawn();
    let c = w.spawn();
    w.insert_component(a, POS, &[1]);
    w.insert_component(b, POS, &[2]);
    w.insert_component(c, POS, &[3]);
    w.insert_component(a, VEL, &[4]);
    assert_eq!(w.get_component_bytes(a, POS), Some(&[1u8][..]));
    assert_eq!(w.get_component_bytes(a, VEL), Some(&[4u8][..]));
    assert_eq!(w.get_component_bytes(b, POS), Some(&[2u8][..]));
    assert_eq!(w.get_component_bytes(c, POS), Some(&[3u8][..]));
    assert_eq!(w.get_component_bytes(c, VEL), None);
    let pos = w.query_raw(POS);
    assert_eq!(pos.len(), 3);
    assert_eq!(pos[0].0, c);
    assert_eq!(pos[1].0, b);
    assert_eq!(pos[2].0, a);
    w.despawn(c);
    assert_eq!(w.get_component_bytes(b, POS), Some(&[2u8][..]));
    assert_eq!(w.query_raw(POS).len(), 2);
}

#[test]
fn dead_handles_are_not_queried_after_despawn() {
    let mut w = World::new();
    let a = w.spawn();
    w.insert_component(a, POS, &[1]);
    w.insert_component(a, VEL, &[2]);
    w.despawn(a);
    assert!(w.query_raw(POS).is_empty());
    assert!(w.query_raw(VEL).is_empty());
    assert_eq!(w.get_component_bytes(a, VEL), None);
}

#[test]
fn stride_checks() {
    let mut w = World::new();
    let e = w.spawn();
    assert!(w.stride_is(POS, 4));
    w.insert_component(e, POS, &[0, 0, 0, 0]);
    assert!(w.stride_is(POS, 4));
    assert!(!w.stride_is(POS, 2));
    assert!(w.stride_is(VEL, 2));
}

#[test]
fn spawned_entities_are_alive_and_recycled() {
    let mut w = World::new();
    let a = w.spawn();
    assert!(w.is_alive(a));
    w.despawn(a);
    let b = w.spawn();
    assert_eq!(b.index, a.index);
    assert_eq!(b.generation, a.generation + 1);
    assert!(!w.is_alive(a));
}
