use alengine::ecs::archetype::{Archetype, ArchetypeSignature, ComponentColumn, ComponentTypeId};
use alengine::ecs::entity::Entity;

fn t(n: u64) -> ComponentTypeId {
    ComponentTypeId(n)
}

#[test]
fn column_push_get_set() {
    let mut col = ComponentColumn::new(t(7), 2);
    assert_eq!(col.type_id, t(7));
    assert_eq!(col.stride, 2);
    assert!(col.data.is_empty());
    col.push_bytes(&[1, 2]);
    col.push_bytes(&[3, 4]);
    assert_eq!(col.get_bytes(0), &[1, 2]);
    assert_eq!(col.get_bytes(1), &[3, 4]);
    col.set_bytes(0, &[9, 8]);
    assert_eq!(col.data, vec![9, 8, 3, 4]);
    assert_eq!(col.get_bytes(1), &[3, 4]);
}

#[test]
fn column_swap_remove_moves_last_row() {
    let mut col = ComponentColumn::new(t(1), 2);
    col.push_bytes(&[1, 1]);
    col.push_bytes(&[2, 2]);
    col.push_bytes(&[3, 3]);
    col.swap_remove(0);
    assert_eq!(col.data, vec![3, 3, 2, 2]);
    col.swap_remove(1);
    assert_eq!(col.data, vec![3, 3]);
    col.swap_remove(0);
    assert!(col.data.is_empty());
}

#[test]
fn zero_sized_column_rows_are_empty() {
    let mut col = ComponentColumn::new(t(1), 0);
    col.push_bytes(&[]);
    assert_eq!(col.get_bytes(3), &[] as &[u8]);
    col.swap_remove(0);
    assert!(col.data.is_empty());
}

#[test]
fn signature_is_sorted_and_deduplicated() {
    let sig = ArchetypeSignature::new(vec![t(5), t(1), t(5), t(3), t(1)]);
    assert_eq!(sig.0, vec![t(1), t(3), t(5)]);
    assert!(sig.contains(&t(3)));
    assert!(!sig.contains(&t(2)));
}

#[test]
fn signature_ignores_order_and_repetition() {
    let a = ArchetypeSignature::new(vec![t(2), t(9), t(4)]);
    let b = ArchetypeSignature::new(vec![t(4), t(4), t(9), t(2)]);
    assert_eq!(a, b);
    assert!(ArchetypeSignature::new(vec![]).0.is_empty());
}

#[test]
fn archetype_new_builds_one_empty_column_per_stride() {
    let sig = ArchetypeSignature::new(vec![t(1), t(2)]);
    let a = Archetype::new(sig.clone(), vec![(t(1), 4), (t(2), 8)]);
    assert_eq!(a.signature, sig);
    assert_eq!(a.len(), 0);
    assert_eq!(a.columns.len(), 2);
    assert_eq!(a.columns[1].type_id, t(2));
    assert_eq!(a.columns[1].stride, 8);
    assert_eq!(a.column_index(t(2)), Some(1));
    assert_eq!(a.column_index(t(3)), None);
}

#[test]
fn remove_row_reports_the_moved_entity() {
    let sig = ArchetypeSignature::new(vec![t(1)]);
    let mut a = Archetype::new(sig, vec![(t(1), 1)]);
    for k in 0..3u32 {
        a.entities.push(Entity::new(k, 0));
        a.columns[0].push_bytes(&[k as u8 + 10]);
    }
    assert_eq!(a.remove_row(0), Some(Entity::new(2, 0)));
    assert_eq!(a.entities, vec![Entity::new(2, 0), Entity::new(1, 0)]);
    assert_eq!(a.columns[0].data, vec![12, 11]);
    assert_eq!(a.remove_row(1), None);
    assert_eq!(a.entities, vec![Entity::new(2, 0)]);
    assert_eq!(a.columns[0].data, vec![12]);
}
