//! Mesh batching and the interface-state defaults.

use egregoria::mesh::{MeshBuilder, MeshVertex};
use egregoria::ui::{EconomyState, EconomyTab, HistoryType, Tool};
use egregoria::NoSerialize;

fn v(seed: u32) -> MeshVertex {
    MeshVertex { position: [seed, seed + 1, seed + 2], color: [0, 0, 0, 1] }
}

#[test]
fn extend_shifts_indices_by_the_existing_vertex_count() {
    let mut mb = MeshBuilder::new();
    mb.extend(&vec![v(0), v(1), v(2)], &vec![0, 1, 2]);
    mb.extend(&vec![v(3), v(4)], &vec![0, 1, 0]);
    assert_eq!(mb.vertices.len(), 5);
    assert_eq!(mb.indices, vec![0, 1, 2, 3, 4, 3]);
}

#[test]
fn extend_with_behaves_like_extend_on_a_produced_run() {
    let mut mb = MeshBuilder::default();
    mb.extend_with(vec![v(0), v(1)], vec![1, 0]);
    mb.extend_with(vec![v(2)], vec![0, 0, 0]);
    assert_eq!(mb.indices, vec![1, 0, 2, 2, 2]);
}

#[test]
fn clear_empties_the_batch() {
    let mut mb = MeshBuilder::new();
    mb.extend(&vec![v(0)], &vec![0]);
    mb.clear();
    assert!(mb.vertices.is_empty());
    assert!(mb.indices.is_empty());
}

#[test]
fn interface_state_defaults() {
    assert!(matches!(Tool::default(), Tool::Hand));
    assert_eq!(EconomyTab::default(), EconomyTab::ImportExports);
    assert_eq!(HistoryType::default(), HistoryType::Money);
    let s = EconomyState::default();
    assert_eq!(s.curlevel, 0);
    assert_eq!(s.tab, EconomyTab::ImportExports);
    assert_eq!(s.hist_type, HistoryType::Money);
    let _marker = NoSerialize;
}
