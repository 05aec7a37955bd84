use oif_sim::cell::Cell;
use oif_sim::cellmap::{CellMap, CellSet};
use oif_sim::deform_graph::DeformBlock;
use oif_sim::ids::{BlockId, MaterialAttachment, MaterialFace, PaintMaterialId, StampMaterialId};
use oif_sim::rebuild::StructureWorld;
use oif_sim::rotation::{rotate_structure, FaceAttachments};
use oif_sim::structure::{FactoryActivity, StructureFreedom, StructureKind};
use oif_sim::structure_state::StructureState;

fn c(x: i32, y: i32, z: i32) -> Cell {
    Cell::new(x, y, z)
}

/// A pusher (1) at (1, 0, 0) pushing east with a block (2) in front, a lone block (3)
/// elsewhere, one structure over the first two.
fn setup() -> (StructureWorld, FaceAttachments, StructureState) {
    let mut blocks: CellMap<DeformBlock> = CellMap::new();
    blocks.insert(c(1, 0, 0), DeformBlock { id: BlockId(1), push: Some(c(1, 0, 0)), forward: c(1, 0, 0), head: false, sealed: None });
    blocks.insert(c(2, 0, 0), DeformBlock { id: BlockId(2), push: None, forward: c(0, 0, -1), head: false, sealed: Some(c(1, 0, 0)) });
    blocks.insert(c(9, 0, 9), DeformBlock { id: BlockId(3), push: None, forward: c(0, 0, -1), head: false, sealed: None });
    let world = StructureWorld {
        blocks,
        factory: CellSet::from_slice(&[c(1, 0, 0), c(2, 0, 0), c(9, 0, 9)]),
        scene: CellSet::new(),
        materials: CellMap::new(),
        welds: vec![],
        acceptors: vec![],
        next_block_id: 10,
        topology_revision: 0,
    };
    let faces = FaceAttachments {
        paints: vec![(MaterialFace::new(BlockId(1), c(1, 0, 0)), PaintMaterialId(4)), (MaterialFace::new(BlockId(3), c(1, 0, 0)), PaintMaterialId(5))],
        stamps: vec![(MaterialFace::new(BlockId(2), c(0, 0, -1)), StampMaterialId(6))],
        panels: vec![MaterialFace::new(BlockId(2), c(0, 1, 0))],
        children: vec![(c(2, 1, 0), MaterialAttachment { parent: BlockId(2), parent_face_normal: c(1, 0, 0) })],
    };
    let mut st = StructureState::new();
    st.add_structure(StructureKind::Factory, CellSet::from_slice(&[c(1, 0, 0), c(2, 0, 0)]), FactoryActivity::Active, StructureFreedom::All, CellSet::new());
    st.add_structure(StructureKind::Factory, CellSet::from_slice(&[c(9, 0, 9)]), FactoryActivity::Active, StructureFreedom::All, CellSet::new());
    (world, faces, st)
}

#[test]
fn a_quarter_turn_moves_and_turns_the_blocks() {
    let (mut world, mut faces, mut st) = setup();
    let cells = CellSet::from_slice(&[c(1, 0, 0), c(2, 0, 0)]);
    rotate_structure(&mut world, &mut faces, &mut st, &cells, c(0, 0, 0), true);
    assert!(world.blocks.get(c(1, 0, 0)).is_none());
    let pusher = world.blocks.get(c(0, 0, 1)).unwrap();
    assert_eq!(pusher.id, BlockId(1));
    assert_eq!(pusher.push, Some(c(0, 0, 1)));
    assert_eq!(pusher.forward, c(0, 0, 1));
    let front = world.blocks.get(c(0, 0, 2)).unwrap();
    assert_eq!(front.forward, c(1, 0, 0));
    assert_eq!(front.sealed, Some(c(0, 0, 1)));
    assert_eq!(world.blocks.get(c(9, 0, 9)).unwrap().id, BlockId(3));
    assert!(world.factory.contains(c(0, 0, 2)) && !world.factory.contains(c(2, 0, 0)) && world.factory.contains(c(9, 0, 9)));
    assert_eq!(faces.paints[0].0.normal, c(0, 0, 1));
    assert_eq!(faces.paints[1].0.normal, c(1, 0, 0));
    assert_eq!(faces.stamps[0].0.normal, c(1, 0, 0));
    assert_eq!(faces.panels[0].normal, c(0, 1, 0));
    assert_eq!(faces.children[0].1.parent_face_normal, c(0, 0, 1));
    assert_eq!(st.id_at(c(0, 0, 1)), st.id_at(c(0, 0, 2)));
    assert!(st.id_at(c(0, 0, 1)).is_some());
    assert_eq!(st.id_at(c(1, 0, 0)), None);
}

#[test]
fn four_counter_turns_and_back_give_the_cells_back() {
    let (mut world, mut faces, mut st) = setup();
    let cells = CellSet::from_slice(&[c(1, 0, 0), c(2, 0, 0)]);
    rotate_structure(&mut world, &mut faces, &mut st, &cells, c(0, 0, 0), false);
    let turned = CellSet::from_slice(&[c(0, 0, -1), c(0, 0, -2)]);
    assert_eq!(world.blocks.get(c(0, 0, -1)).unwrap().id, BlockId(1));
    rotate_structure(&mut world, &mut faces, &mut st, &turned, c(0, 0, 0), true);
    assert_eq!(world.blocks.get(c(1, 0, 0)).unwrap().push, Some(c(1, 0, 0)));
    assert_eq!(faces.paints[0].0.normal, c(1, 0, 0));
    assert!(st.id_at(c(2, 0, 0)).is_some());
}

#[test]
fn a_turn_and_the_opposite_turn_restore_the_world() {
    let (before_world, before_faces, _) = setup();
    let (mut world, mut faces, mut st) = setup();
    let cells = CellSet::from_slice(&[c(1, 0, 0), c(2, 0, 0)]);
    rotate_structure(&mut world, &mut faces, &mut st, &cells, c(3, 0, 1), true);
    let turned = CellSet::from_slice(&[c(4, 0, -1), c(4, 0, 0)]);
    assert!(world.blocks.get(c(4, 0, -1)).is_some() && world.blocks.get(c(1, 0, 0)).is_none());
    rotate_structure(&mut world, &mut faces, &mut st, &turned, c(3, 0, 1), false);
    assert_eq!(world.blocks.len(), before_world.blocks.len());
    for p in [c(1, 0, 0), c(2, 0, 0), c(9, 0, 9), c(4, 0, -1), c(4, 0, 0)] {
        assert_eq!(world.blocks.get(p), before_world.blocks.get(p));
        assert_eq!(world.factory.contains(p), before_world.factory.contains(p));
    }
    assert_eq!(world.factory.len(), before_world.factory.len());
    assert_eq!(faces.paints, before_faces.paints);
    assert_eq!(faces.stamps, before_faces.stamps);
    assert_eq!(faces.panels, before_faces.panels);
    assert_eq!(faces.children, before_faces.children);
    assert_eq!(st.id_at(c(1, 0, 0)), st.id_at(c(2, 0, 0)));
    assert!(st.id_at(c(1, 0, 0)).is_some());
}

#[test]
fn turning_wire_panels_advances_the_topology_revision() {
    let (mut world, mut faces, mut st) = setup();
    let cells = CellSet::from_slice(&[c(1, 0, 0), c(2, 0, 0)]);
    rotate_structure(&mut world, &mut faces, &mut st, &cells, c(0, 0, 0), true);
    // The only panel faces up, which a quarter turn keeps.
    assert_eq!(world.topology_revision, 0);
    faces.panels.push(MaterialFace::new(BlockId(1), c(0, 0, 1)));
    let turned = CellSet::from_slice(&[c(0, 0, 1), c(0, 0, 2)]);
    rotate_structure(&mut world, &mut faces, &mut st, &turned, c(0, 0, 0), false);
    assert_eq!(world.topology_revision, 1);
    assert_eq!(faces.panels[1].normal, c(1, 0, 0));
}
