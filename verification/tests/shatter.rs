use oif_sim::cell::Cell;
use oif_sim::cellmap::{CellMap, CellSet};
use oif_sim::deform_graph::DeformBlock;
use oif_sim::ids::{BlockId, MaterialFace, MaterialWeld, PaintMaterialId, StampMaterialId, StructureId};
use oif_sim::moves::{MovementMark, PusherActor, PusherAnimationKind, StructureMove};
use oif_sim::rebuild::StructureWorld;
use oif_sim::rotation::FaceAttachments;
use oif_sim::shatter::{apply_fragile_shatter_before_execute, fragile_shatter_cells};
use oif_sim::stamps::{stamp_collisions, stamp_collisions_for_rotation};
use oif_sim::structure::{FactoryActivity, StructureFreedom, StructureKind};
use oif_sim::structure_state::StructureState;

fn c(x: i32, y: i32, z: i32) -> Cell {
    Cell::new(x, y, z)
}

fn block(id: u64, forward: Cell) -> DeformBlock {
    DeformBlock { id: BlockId(id), push: None, forward, head: false, sealed: None }
}

/// A crate (1) at (0,0,0) and (1,0,0) moving east into a fragile glass (3) at (2,0,0);
/// a pusher (4) at (0,0,5) facing east with a fragile glass (5) in front; a glass (6)
/// at (7,0,0) in front of a wall (8) at (8,0,0).
fn setup() -> (StructureWorld, FaceAttachments, StructureState) {
    let mut blocks: CellMap<DeformBlock> = CellMap::new();
    blocks.insert(c(0, 0, 0), block(1, c(1, 0, 0)));
    blocks.insert(c(1, 0, 0), block(2, c(1, 0, 0)));
    blocks.insert(c(2, 0, 0), block(3, c(1, 0, 0)));
    blocks.insert(c(0, 0, 5), block(4, c(1, 0, 0)));
    blocks.insert(c(1, 0, 5), block(5, c(1, 0, 0)));
    blocks.insert(c(7, 0, 0), block(6, c(1, 0, 0)));
    blocks.insert(c(8, 0, 0), block(8, c(1, 0, 0)));
    let mut materials: CellMap<BlockId> = CellMap::new();
    for (p, id) in [(c(0, 0, 0), 1), (c(1, 0, 0), 2), (c(2, 0, 0), 3), (c(1, 0, 5), 5), (c(7, 0, 0), 6)] {
        materials.insert(p, BlockId(id));
    }
    let world = StructureWorld {
        blocks,
        factory: CellSet::from_slice(&[c(0, 0, 5), c(8, 0, 0)]),
        scene: CellSet::new(),
        materials,
        welds: vec![MaterialWeld::new(BlockId(1), BlockId(2)), MaterialWeld::new(BlockId(2), BlockId(3))],
        acceptors: vec![],
        next_block_id: 9,
        topology_revision: 0,
    };
    let faces = FaceAttachments {
        paints: vec![(MaterialFace::new(BlockId(3), c(0, 1, 0)), PaintMaterialId(1)), (MaterialFace::new(BlockId(1), c(0, 1, 0)), PaintMaterialId(2))],
        stamps: vec![],
        panels: vec![],
        children: vec![],
    };
    let mut st = StructureState::new();
    st.add_structure(StructureKind::Material, CellSet::from_slice(&[c(0, 0, 0), c(1, 0, 0)]), FactoryActivity::Active, StructureFreedom::All, CellSet::new());
    st.add_structure(StructureKind::Material, CellSet::from_slice(&[c(2, 0, 0)]), FactoryActivity::Active, StructureFreedom::All, CellSet::new());
    st.add_structure(StructureKind::Material, CellSet::from_slice(&[c(7, 0, 0)]), FactoryActivity::Active, StructureFreedom::All, CellSet::new());
    (world, faces, st)
}

fn fragile() -> CellSet {
    CellSet::from_slice(&[c(2, 0, 0), c(1, 0, 5), c(7, 0, 0)])
}

#[test]
fn a_translation_shatters_the_glass_it_runs_into() {
    let (world, _, _) = setup();
    let moves = vec![StructureMove::translate_marked(StructureId(1), CellSet::from_slice(&[c(0, 0, 0), c(1, 0, 0)]), c(1, 0, 0), MovementMark::Conveyor)];
    let r = fragile_shatter_cells(&world, &moves, &fragile(), &CellSet::new());
    assert_eq!(r.len(), 1);
    assert!(r.contains(c(2, 0, 0)));
}

#[test]
fn a_resting_translation_shatters_nothing_but_an_extending_head_does() {
    let (world, _, _) = setup();
    let actor = PusherActor { id: BlockId(4), pos: c(0, 0, 5), animation: PusherAnimationKind::Extend };
    let moves = vec![
        StructureMove::translate_by_pusher_actor(StructureId(1), CellSet::from_slice(&[c(0, 0, 0), c(1, 0, 0)]), c(0, 0, 0), actor, MovementMark::Push),
        StructureMove::rotate(StructureId(2), CellSet::from_slice(&[c(2, 0, 0)]), c(2, 0, 0), true),
    ];
    let r = fragile_shatter_cells(&world, &moves, &fragile(), &CellSet::new());
    assert_eq!(r.len(), 1);
    assert!(r.contains(c(1, 0, 5)));
    let retract = PusherActor { id: BlockId(4), pos: c(0, 0, 5), animation: PusherAnimationKind::Retract };
    let moves = vec![StructureMove::translate_by_pusher_actor(StructureId(1), CellSet::from_slice(&[c(0, 0, 0)]), c(0, 0, 0), retract, MovementMark::Push)];
    assert!(fragile_shatter_cells(&world, &moves, &fragile(), &CellSet::new()).is_empty());
}

#[test]
fn a_fragile_material_pushed_into_a_wall_shatters_itself() {
    let (world, _, _) = setup();
    let moves = vec![StructureMove::translate_marked(StructureId(3), CellSet::from_slice(&[c(7, 0, 0)]), c(1, 0, 0), MovementMark::Conveyor)];
    let r = fragile_shatter_cells(&world, &moves, &fragile(), &CellSet::new());
    assert_eq!(r.len(), 1);
    assert!(r.contains(c(7, 0, 0)));
    let down = vec![StructureMove::translate_marked(StructureId(3), CellSet::from_slice(&[c(7, 0, 0)]), c(0, -1, 0), MovementMark::Vertical)];
    assert!(fragile_shatter_cells(&world, &down, &fragile(), &CellSet::new()).is_empty());
    let solid = CellSet::from_slice(&[c(7, 0, 1)]);
    let south = vec![StructureMove::translate_marked(StructureId(3), CellSet::from_slice(&[c(7, 0, 0)]), c(0, 0, 1), MovementMark::Conveyor)];
    assert!(fragile_shatter_cells(&world, &south, &fragile(), &solid).contains(c(7, 0, 0)));
    assert!(fragile_shatter_cells(&world, &south, &fragile(), &CellSet::new()).is_empty());
}

#[test]
fn shattering_removes_the_glass_from_world_structures_and_moves() {
    let (mut world, mut faces, mut st) = setup();
    let mut moves = vec![StructureMove::translate_marked(StructureId(1), CellSet::from_slice(&[c(0, 0, 0), c(1, 0, 0), c(2, 0, 0)]), c(1, 0, 0), MovementMark::Conveyor)];
    let (debris, stamps) = apply_fragile_shatter_before_execute(&mut world, &mut faces, &mut moves, &mut st, &fragile(), &CellSet::new(), &vec![]);
    assert!(debris.is_empty() && stamps.is_empty());
    let mut moves = vec![StructureMove::translate_marked(StructureId(1), CellSet::from_slice(&[c(0, 0, 0), c(1, 0, 0)]), c(1, 0, 0), MovementMark::Conveyor)];
    let (debris, stamps) = apply_fragile_shatter_before_execute(&mut world, &mut faces, &mut moves, &mut st, &fragile(), &CellSet::new(), &vec![]);
    assert!(stamps.is_empty());
    assert_eq!(debris.len(), 1);
    assert_eq!(debris[0].0, c(2, 0, 0));
    assert_eq!(debris[0].1.id, BlockId(3));
    assert!(world.blocks.get(c(2, 0, 0)).is_none());
    assert!(world.materials.get(c(2, 0, 0)).is_none());
    assert_eq!(world.welds, vec![MaterialWeld::new(BlockId(1), BlockId(2))]);
    assert_eq!(faces.paints, vec![(MaterialFace::new(BlockId(1), c(0, 1, 0)), PaintMaterialId(2))]);
    assert_eq!(st.id_at(c(2, 0, 0)), None);
    assert!(st.structure_positions(StructureId(2)).unwrap().is_empty());
    assert_eq!(moves.len(), 1);
    assert_eq!(moves[0].structure().len(), 2);
    assert_eq!(world.topology_revision, 1);
}

#[test]
fn shattering_nothing_changes_nothing() {
    let (mut world, mut faces, mut st) = setup();
    let mut moves = vec![StructureMove::translate_marked(StructureId(1), CellSet::from_slice(&[c(0, 0, 0)]), c(0, 0, -1), MovementMark::Conveyor)];
    let (debris, stamps) = apply_fragile_shatter_before_execute(&mut world, &mut faces, &mut moves, &mut st, &fragile(), &CellSet::new(), &vec![]);
    assert!(debris.is_empty() && stamps.is_empty());
    assert_eq!(world.blocks.len(), 7);
    assert_eq!(world.welds.len(), 2);
    assert_eq!(faces.paints.len(), 2);
    assert_eq!(moves[0].structure().len(), 1);
    assert_eq!(st.id_at(c(2, 0, 0)), Some(StructureId(2)));
}

/// A block (1) at the origin with a stamp (7) on its south face, a wall (9) south-east of
/// it and another (10) west of it.
fn stamped() -> (StructureWorld, FaceAttachments, StructureState) {
    let mut blocks: CellMap<DeformBlock> = CellMap::new();
    blocks.insert(c(0, 0, 0), block(1, c(1, 0, 0)));
    blocks.insert(c(1, 0, 1), block(9, c(1, 0, 0)));
    blocks.insert(c(-1, 0, 0), block(10, c(1, 0, 0)));
    let mut materials: CellMap<BlockId> = CellMap::new();
    materials.insert(c(0, 0, 0), BlockId(1));
    let world = StructureWorld {
        blocks,
        factory: CellSet::from_slice(&[c(1, 0, 1), c(-1, 0, 0)]),
        scene: CellSet::new(),
        materials,
        welds: vec![],
        acceptors: vec![],
        next_block_id: 11,
        topology_revision: 0,
    };
    let faces = FaceAttachments {
        paints: vec![],
        stamps: vec![(MaterialFace::new(BlockId(1), c(0, 0, 1)), StampMaterialId(7))],
        panels: vec![],
        children: vec![],
    };
    let mut st = StructureState::new();
    st.add_structure(StructureKind::Material, CellSet::from_slice(&[c(0, 0, 0)]), FactoryActivity::Active, StructureFreedom::All, CellSet::new());
    (world, faces, st)
}

#[test]
fn a_stamp_driven_into_a_wall_collides() {
    let (world, faces, _) = stamped();
    let one = CellSet::from_slice(&[c(0, 0, 0)]);
    let hits = stamp_collisions(&world.blocks, &CellSet::new(), &one, &faces.stamps, c(1, 0, 0));
    assert_eq!(hits, vec![(MaterialFace::new(BlockId(1), c(0, 0, 1)), c(1, 0, 1))]);
    assert!(stamp_collisions(&world.blocks, &CellSet::new(), &one, &faces.stamps, c(0, 0, 0)).is_empty());
    assert!(stamp_collisions(&world.blocks, &CellSet::new(), &one, &faces.stamps, c(0, 1, 0)).is_empty());
}

#[test]
fn a_turning_stamp_never_hits_the_cell_it_turns_into() {
    let (world, faces, _) = stamped();
    let one = CellSet::from_slice(&[c(0, 0, 0)]);
    // The turned stamp's cell is part of what turns, so it counts as free.
    assert!(stamp_collisions_for_rotation(&world.blocks, &CellSet::new(), &one, &faces.stamps, c(0, 0, 0), true).is_empty());
    assert!(stamp_collisions_for_rotation(&world.blocks, &CellSet::new(), &one, &faces.stamps, c(0, 0, 0), false).is_empty());
}

#[test]
fn a_fragile_stamp_driven_into_a_wall_shatters() {
    let (mut world, mut faces, mut st) = stamped();
    let mut moves = vec![StructureMove::translate_marked(StructureId(1), CellSet::from_slice(&[c(0, 0, 0)]), c(1, 0, 0), MovementMark::Conveyor)];
    let (debris, stamps) =
        apply_fragile_shatter_before_execute(&mut world, &mut faces, &mut moves, &mut st, &CellSet::new(), &CellSet::new(), &vec![StampMaterialId(7)]);
    assert!(debris.is_empty());
    assert_eq!(stamps, vec![(MaterialFace::new(BlockId(1), c(0, 0, 1)), c(1, 0, 1), StampMaterialId(7))]);
    assert!(faces.stamps.is_empty());
    assert!(world.blocks.get(c(0, 0, 0)).is_some());
    assert_eq!(world.topology_revision, 1);

    let (mut world, mut faces, mut st) = stamped();
    let mut moves = vec![StructureMove::translate_marked(StructureId(1), CellSet::from_slice(&[c(0, 0, 0)]), c(1, 0, 0), MovementMark::Conveyor)];
    let (_, stamps) =
        apply_fragile_shatter_before_execute(&mut world, &mut faces, &mut moves, &mut st, &CellSet::new(), &CellSet::new(), &vec![StampMaterialId(8)]);
    assert!(stamps.is_empty());
    assert_eq!(faces.stamps.len(), 1);
}
