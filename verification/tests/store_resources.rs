//! The entity/component store and the resource store's borrow discipline.

use egregoria::registry::Registries;
use egregoria::resources::{ResVal, Resources};
use egregoria::store::World;
use egregoria::world::{Egregoria, CLOCK_RES, MAP_RES};

#[test]
fn spawn_insert_get_remove() {
    let mut w = World::new();
    let e = w.spawn();
    assert!(w.contains(e));
    assert!(w.insert(e, 3, vec![1, 2, 3]));
    assert_eq!(w.get(e, 3), Some(vec![1, 2, 3]));
    assert_eq!(w.get(e, 4), None);
    // replacing under the same tag
    assert!(w.insert(e, 3, vec![9]));
    assert_eq!(w.get(e, 3), Some(vec![9]));
    w.remove(e, 3);
    assert_eq!(w.get(e, 3), None);
}

#[test]
fn stale_handles_are_detectably_invalid() {
    let mut w = World::new();
    let e = w.spawn();
    assert!(w.insert(e, 1, vec![7]));
    w.despawn(e);
    assert!(!w.contains(e));
    assert_eq!(w.get(e, 1), None);
    // the insert is dropped, not applied to a reused slot
    assert!(!w.insert(e, 1, vec![8]));
    let e2 = w.spawn();
    // the slot is reused under a new generation: the old handle stays dead
    assert_eq!(e2.index, e.index);
    assert_ne!(e2.generation, e.generation);
    assert!(!w.contains(e));
    assert!(w.contains(e2));
    assert_eq!(w.get(e2, 1), None);
}

#[test]
fn exclusive_borrows_of_the_same_resource_are_rejected() {
    let mut rs = Resources::new();
    rs.insert(11, ResVal::Uint(5));
    let first = rs.try_write(11);
    assert!(matches!(first, Some(ResVal::Uint(5))));
    // a second exclusive borrow while the first is live is rejected
    assert!(rs.try_write(11).is_none());
    rs.end_write(11, ResVal::Uint(6));
    // after check-in the borrow is available again
    let second = rs.try_write(11);
    assert!(matches!(second, Some(ResVal::Uint(6))));
}

#[test]
fn try_write_rejects_missing_resources() {
    let mut rs = Resources::new();
    assert!(rs.try_write(42).is_none());
    rs.insert(42, ResVal::Bytes(vec![1]));
    assert!(rs.try_write(42).is_some());
}

#[test]
fn write_or_default_installs_then_borrows() {
    let mut rs = Resources::new();
    let v = rs.write_or_default(7, ResVal::Uint(123));
    assert!(matches!(v, ResVal::Uint(123)));
    rs.end_write(7, v);
    let v2 = rs.write_or_default(7, ResVal::Uint(0));
    assert!(matches!(v2, ResVal::Uint(123)));
    rs.end_write(7, v2);
}

#[test]
fn world_resource_accessors() {
    let regs = Registries::new();
    let mut goria = Egregoria::new(0, &regs);
    assert!(matches!(goria.read(CLOCK_RES), ResVal::Uint(0)));
    goria.insert(9, ResVal::Bytes(vec![4, 5]));
    assert!(matches!(goria.read(9), ResVal::Bytes(_)));
    let map = goria.map();
    assert_eq!(map, Vec::<(i32, i32)>::new());
    let _ = goria.try_write(MAP_RES).unwrap();
    assert!(goria.try_write(MAP_RES).is_none());
}

#[test]
fn registries_reject_duplicates() {
    let mut regs = Registries::new();
    assert!(regs.register_component_tag(4));
    assert!(!regs.register_component_tag(4));
    assert!(regs.register_component_tag(5));
    assert!(regs.register_saveload(b"economy".to_vec(), 20));
    assert!(!regs.register_saveload(b"economy".to_vec(), 21));
    assert!(regs.register_saveload(b"market".to_vec(), 21));
}
