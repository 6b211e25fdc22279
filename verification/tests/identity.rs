//! Entity identity: packed keys, ordering, equality and hashing.

use std::collections::hash_map::DefaultHasher;
use std::hash::{Hash, Hasher};

use egregoria::entity::{Entity, SoulID};

fn hash_of<T: Hash>(v: &T) -> u64 {
    let mut h = DefaultHasher::new();
    v.hash(&mut h);
    h.finish()
}

#[test]
fn bits_pack_generation_high_index_low() {
    let e = Entity { generation: 2, index: 7 };
    assert_eq!(e.bits(), 2 * 0x1_0000_0000u64 + 7);
    let zero = Entity { generation: 0, index: 0 };
    assert_eq!(zero.bits(), 0);
}

#[test]
fn soul_ids_with_equal_bits_are_equal_and_hash_equal() {
    let a = SoulID(Entity { generation: 5, index: 9 });
    let b = SoulID(Entity { generation: 5, index: 9 });
    assert_eq!(a.0.bits(), b.0.bits());
    assert_eq!(a, b);
    assert_eq!(hash_of(&a), hash_of(&b));
}

#[test]
fn soul_ids_of_distinct_handles_never_compare_equal() {
    let a = SoulID(Entity { generation: 5, index: 9 });
    let b = SoulID(Entity { generation: 5, index: 10 });
    let c = SoulID(Entity { generation: 6, index: 9 });
    assert_ne!(a, b);
    assert_ne!(a, c);
    assert_ne!(b, c);
}

#[test]
fn soul_id_order_follows_packed_bits() {
    let lo = SoulID(Entity { generation: 1, index: 0xFFFF_FFFF });
    let hi = SoulID(Entity { generation: 2, index: 0 });
    assert!(lo < hi);
    assert!(hi > lo);
    assert_eq!(
        lo.partial_cmp(&hi),
        Some(std::cmp::Ordering::Less)
    );
    assert_eq!(lo.cmp(&lo), std::cmp::Ordering::Equal);
}
