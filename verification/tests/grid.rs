use oif_sim::cell::Cell;
use oif_sim::cellmap::{CellMap, CellSet};
use oif_sim::deform_graph::DeformBlock;
use oif_sim::ids::{BlockId, MaterialAttachment, MaterialFace, MaterialWeld, PaintMaterialId, StampMaterialId};
use oif_sim::rebuild::StructureWorld;
use oif_sim::rotation::FaceAttachments;

fn c(x: i32, y: i32, z: i32) -> Cell {
    Cell::new(x, y, z)
}

fn block(id: u64) -> DeformBlock {
    DeformBlock { id: BlockId(id), push: None, forward: c(0, 0, -1), head: false, sealed: None }
}

fn world() -> (StructureWorld, FaceAttachments) {
    let mut blocks: CellMap<DeformBlock> = CellMap::new();
    blocks.insert(c(0, 0, 0), block(1));
    blocks.insert(c(1, 0, 0), block(2));
    blocks.insert(c(5, 0, 0), block(0));
    let mut materials: CellMap<BlockId> = CellMap::new();
    materials.insert(c(0, 0, 0), BlockId(1));
    materials.insert(c(1, 0, 0), BlockId(2));
    let w = StructureWorld {
        blocks,
        factory: CellSet::new(),
        scene: CellSet::from_slice(&[c(5, 0, 0)]),
        materials,
        welds: vec![MaterialWeld::new(BlockId(1), BlockId(2)), MaterialWeld::new(BlockId(2), BlockId(7))],
        acceptors: vec![],
        next_block_id: 8,
        topology_revision: 0,
    };
    let faces = FaceAttachments {
        paints: vec![(MaterialFace::new(BlockId(1), c(0, 1, 0)), PaintMaterialId(3)), (MaterialFace::new(BlockId(2), c(0, 1, 0)), PaintMaterialId(4))],
        stamps: vec![(MaterialFace::new(BlockId(1), c(1, 0, 0)), StampMaterialId(5))],
        panels: vec![MaterialFace::new(BlockId(1), c(0, 0, 1))],
        children: vec![(c(0, 1, 0), MaterialAttachment { parent: BlockId(1), parent_face_normal: c(0, 1, 0) })],
    };
    (w, faces)
}

#[test]
fn removing_a_block_takes_its_welds_paints_and_panels() {
    let (mut w, mut faces) = world();
    let r = w.remove(&mut faces, c(0, 0, 0));
    assert_eq!(r.map(|b| b.id), Some(BlockId(1)));
    assert!(w.blocks.get(c(0, 0, 0)).is_none());
    assert!(w.materials.get(c(0, 0, 0)).is_none());
    assert_eq!(w.welds, vec![MaterialWeld::new(BlockId(2), BlockId(7))]);
    assert_eq!(faces.paints, vec![(MaterialFace::new(BlockId(2), c(0, 1, 0)), PaintMaterialId(4))]);
    assert!(faces.panels.is_empty());
    assert_eq!(faces.stamps.len(), 1);
    assert_eq!(faces.children.len(), 1);
    assert!(w.blocks.get(c(1, 0, 0)).is_some());
}

#[test]
fn removing_an_empty_cell_changes_nothing() {
    let (mut w, mut faces) = world();
    assert!(w.remove(&mut faces, c(9, 9, 9)).is_none());
    assert_eq!(w.blocks.len(), 3);
    assert_eq!(w.welds.len(), 2);
    assert_eq!(faces.paints.len(), 2);
    assert_eq!(faces.panels.len(), 1);
}

#[test]
fn removing_a_block_without_identity_keeps_the_welds() {
    let (mut w, mut faces) = world();
    assert_eq!(w.remove(&mut faces, c(5, 0, 0)).map(|b| b.id), Some(BlockId(0)));
    assert!(!w.scene.contains(c(5, 0, 0)));
    assert_eq!(w.welds.len(), 2);
    assert_eq!(faces.paints.len(), 2);
    assert_eq!(faces.panels.len(), 1);
}

#[test]
fn identities_go_to_factory_and_material_blocks_only() {
    let (mut w, _) = world();
    assert_eq!(w.assign_block_id(BlockId(0), false), BlockId(0));
    assert_eq!(w.next_block_id, 8);
    assert_eq!(w.assign_block_id(BlockId(0), true), BlockId(8));
    assert_eq!(w.next_block_id, 9);
    assert_eq!(w.assign_block_id(BlockId(20), true), BlockId(20));
    assert_eq!(w.next_block_id, 21);
    assert_eq!(w.assign_block_id(BlockId(3), true), BlockId(3));
    assert_eq!(w.next_block_id, 21);
    w.next_block_id = 0;
    assert_eq!(w.assign_block_id(BlockId(0), true), BlockId(1));
    assert_eq!(w.next_block_id, 2);
    assert_eq!(w.assign_block_id(BlockId(u64::MAX), true), BlockId(u64::MAX));
    assert_eq!(w.next_block_id, u64::MAX);
}

#[test]
fn removing_a_block_advances_the_topology_revision() {
    let (mut w, mut faces) = world();
    w.topology_revision = 41;
    w.remove(&mut faces, c(1, 0, 0));
    assert_eq!(w.topology_revision, 42);
    w.remove(&mut faces, c(9, 9, 9));
    assert_eq!(w.topology_revision, 42);
    w.topology_revision = u64::MAX;
    w.remove(&mut faces, c(0, 0, 0));
    assert_eq!(w.topology_revision, 0);
}

#[test]
fn clearing_empties_the_grid_once() {
    let (mut w, mut faces) = world();
    w.topology_revision = 5;
    w.clear(&mut faces);
    assert_eq!(w.blocks.len(), 0);
    assert!(w.scene.is_empty() && w.materials.is_empty());
    assert!(w.welds.is_empty());
    assert!(faces.paints.is_empty() && faces.panels.is_empty());
    assert_eq!(faces.stamps.len(), 1);
    assert_eq!(faces.children.len(), 1);
    assert_eq!(w.next_block_id, 8);
    assert_eq!(w.topology_revision, 6);
    w.clear(&mut faces);
    assert_eq!(w.topology_revision, 6);
}
