//! The save pipeline: round trip, version gate, and fingerprints.

use egregoria::commands::WorldCommands;
use egregoria::registry::Registries;
use egregoria::resources::ResVal;
use egregoria::save::LoadError;
use egregoria::system::{CounterSystem, SeqSchedule};
use egregoria::world::Egregoria;

const COUNTER: u64 = 100;
const NOTES: u64 = 101;

fn rich_registries() -> Registries {
    let mut regs = Registries::new();
    regs.register_init(COUNTER, ResVal::Uint(0));
    assert!(regs.register_component_tag(1));
    assert!(regs.register_component_tag(2));
    assert!(regs.register_saveload(b"counter".to_vec(), COUNTER));
    assert!(regs.register_saveload(b"notes".to_vec(), NOTES));
    regs
}

fn rich_world(regs: &Registries) -> Egregoria {
    let mut goria = Egregoria::new(2, regs);
    let a = goria.spawn();
    let b = goria.spawn();
    assert!(goria.add_comp(a, 1, vec![1, 2, 3]));
    assert!(goria.add_comp(a, 2, vec![]));
    assert!(goria.add_comp(b, 2, vec![0xFF]));
    // an unregistered tag: present in the world, absent from saves
    assert!(goria.add_comp(b, 9, vec![9, 9]));
    goria.insert(NOTES, ResVal::Bytes(vec![10, 20, 30]));
    let mut schedule: SeqSchedule<CounterSystem> = SeqSchedule::new();
    schedule.add_system(CounterSystem { res_id: COUNTER });
    let commands = WorldCommands::new();
    goria.tick(&mut schedule, &commands);
    goria.tick(&mut schedule, &commands);
    goria
}

#[test]
fn save_load_round_trip_preserves_every_hash() {
    let regs = rich_registries();
    let goria = rich_world(&regs);
    let bytes = goria.serialize(&regs);
    let loaded = Egregoria::deserialize(&bytes, &regs).expect("own save must load");
    assert_eq!(loaded.hashes(&regs), goria.hashes(&regs));
    assert_eq!(loaded.get_tick(), goria.get_tick());
    // and a save of the loaded world is byte-identical
    assert_eq!(loaded.serialize(&regs), bytes);
}

#[test]
fn round_trip_of_a_fresh_empty_world() {
    let regs = Registries::new();
    let goria = Egregoria::new(0, &regs);
    let bytes = goria.serialize(&regs);
    let loaded = Egregoria::deserialize(&bytes, &regs).expect("own save must load");
    assert_eq!(loaded.hashes(&regs), goria.hashes(&regs));
}

#[test]
fn version_gate_rejects_a_tampered_version() {
    let regs = rich_registries();
    let goria = Egregoria::new(0, &regs);
    let mut bytes = goria.serialize(&regs);
    // the version string starts right after its 8-byte length prefix
    bytes[8] ^= 1;
    match Egregoria::deserialize(&bytes, &regs) {
        Err(LoadError::VersionMismatch) => {},
        other => panic!("a wrong version must be rejected, got {:?}", other.map(|_| ())),
    }
}

#[test]
fn truncated_saves_are_malformed() {
    let regs = rich_registries();
    let goria = Egregoria::new(0, &regs);
    let bytes = goria.serialize(&regs);
    let truncated: Vec<u8> = bytes[..bytes.len() - 1].to_vec();
    assert!(matches!(
        Egregoria::deserialize(&truncated, &regs),
        Err(LoadError::Malformed)
    ));
    assert!(matches!(
        Egregoria::deserialize(&Vec::new(), &regs),
        Err(LoadError::Malformed)
    ));
}

#[test]
fn hashes_carry_tick_world_and_every_registered_group() {
    let regs = rich_registries();
    let goria = rich_world(&regs);
    let hashes = goria.hashes(&regs);
    assert_eq!(hashes.len(), 4);
    assert_eq!(hashes[0].0, b"tick".to_vec());
    assert_eq!(hashes[0].1, 2);
    assert_eq!(hashes[1].0, b"world".to_vec());
    assert_eq!(hashes[2].0, b"counter".to_vec());
    assert_eq!(hashes[3].0, b"notes".to_vec());
}

#[test]
fn hashes_differ_when_registered_state_differs() {
    let regs = rich_registries();
    let a = rich_world(&regs);
    let mut b = rich_world(&regs);
    b.insert(NOTES, ResVal::Bytes(vec![99]));
    let ha = a.hashes(&regs);
    let hb = b.hashes(&regs);
    assert_eq!(ha[2], hb[2]);
    assert_ne!(ha[3], hb[3]);
}

#[test]
fn unregistered_components_are_dropped_by_a_save() {
    let regs = rich_registries();
    let goria = rich_world(&regs);
    let bytes = goria.serialize(&regs);
    let loaded = Egregoria::deserialize(&bytes, &regs).unwrap();
    // the entity table survives, but tag 9 was never registered
    let b = egregoria::entity::Entity { generation: 0, index: 1 };
    assert_eq!(loaded.comp(b, 2), Some(vec![0xFF]));
    assert_eq!(loaded.comp(b, 9), None);
}

#[test]
fn missing_groups_are_skipped_and_unknown_groups_dropped() {
    // save under a registry with one group, load under a richer one
    let mut small = Registries::new();
    assert!(small.register_saveload(b"counter".to_vec(), COUNTER));
    let mut goria = Egregoria::new(0, &small);
    goria.insert(COUNTER, ResVal::Uint(7));
    let bytes = goria.serialize(&small);
    let rich = rich_registries();
    let loaded = Egregoria::deserialize(&bytes, &rich).unwrap();
    assert!(matches!(loaded.read(COUNTER), ResVal::Uint(7)));
}
