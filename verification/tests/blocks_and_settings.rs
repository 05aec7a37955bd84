use oif_sim::cell::{Cell, Facing};
use oif_sim::cellmap::{CellMap, CellSet};
use oif_sim::connectivity::material_structure;
use oif_sim::ids::{BlockId, MaterialBlockId, MaterialWeld, StampMaterialId};
use oif_sim::optics::{reflect_laser, LaserOpticsBehavior};
use oif_sim::pending::PendingTurnEffects;
use oif_sim::pusher::{PusherDevice, PusherSnapshot, PusherState};
use oif_sim::settings::{
    BlockSettings, ConverterMode, ConverterSettings, EditSelectionMode, GeneratorMode, GeneratorSettings,
    TeleportSettings,
};

fn c(x: i32, y: i32, z: i32) -> Cell {
    Cell::new(x, y, z)
}

#[test]
fn horizontal_mirror_by_facing() {
    let east = c(1, 0, 0);
    assert_eq!(reflect_laser(LaserOpticsBehavior::Mirror, Facing::North, east), vec![c(0, 0, -1)]);
    assert_eq!(reflect_laser(LaserOpticsBehavior::Mirror, Facing::East, east), vec![c(0, 0, 1)]);
    assert!(reflect_laser(LaserOpticsBehavior::Mirror, Facing::East, c(0, 1, 0)).is_empty());
}

#[test]
fn mirror_sends_a_reversed_beam_back() {
    let out = reflect_laser(LaserOpticsBehavior::Mirror, Facing::North, c(1, 0, 0))[0];
    let back = reflect_laser(LaserOpticsBehavior::Mirror, Facing::North, out.neg());
    assert_eq!(back, vec![c(-1, 0, 0)]);
}

#[test]
fn vertical_mirror_swaps_height_and_local_x() {
    assert_eq!(reflect_laser(LaserOpticsBehavior::VerticalMirror, Facing::North, c(0, 1, 0)), vec![c(-1, 0, 0)]);
    assert_eq!(reflect_laser(LaserOpticsBehavior::VerticalMirror, Facing::North, c(1, 0, 0)), vec![c(0, -1, 0)]);
    assert_eq!(reflect_laser(LaserOpticsBehavior::VerticalMirror, Facing::East, c(0, -1, 0)), vec![c(0, 0, -1)]);
    assert!(reflect_laser(LaserOpticsBehavior::VerticalMirror, Facing::North, c(0, 0, 1)).is_empty());
}

#[test]
fn splitter_sends_the_other_two_axes() {
    assert_eq!(
        reflect_laser(LaserOpticsBehavior::Splitter, Facing::North, c(-1, 0, 0)),
        vec![c(0, 1, 0), c(0, 0, 1)]
    );
    assert_eq!(
        reflect_laser(LaserOpticsBehavior::Splitter, Facing::North, c(1, 0, 0)),
        vec![c(0, -1, 0), c(0, 0, -1)]
    );
    assert_eq!(
        reflect_laser(LaserOpticsBehavior::Splitter, Facing::East, c(0, 0, 1)),
        vec![c(0, 1, 0), c(1, 0, 0)]
    );
}

#[test]
fn generator_trigger_key_normalizes_the_period() {
    let g = GeneratorSettings {
        mode: GeneratorMode::Period { period: 0, offset: 5 },
        material: MaterialBlockId(1),
        facing: Facing::North,
    };
    assert_eq!(g.trigger_key(), GeneratorMode::Period { period: 1, offset: 0 });
    let g = GeneratorSettings { mode: GeneratorMode::Period { period: 3, offset: 7 }, ..g };
    assert_eq!(g.trigger_key(), GeneratorMode::Period { period: 3, offset: 1 });
    let clamped = g.clamps_offset();
    assert_eq!(clamped.mode, GeneratorMode::Period { period: 3, offset: 1 });
    assert_eq!(clamped.clamps_offset(), clamped);
    let linked = GeneratorSettings { mode: GeneratorMode::Link { anchor: Some(c(1, 2, 3)) }, ..g };
    assert_eq!(linked.trigger_key(), GeneratorMode::Link { anchor: Some(c(1, 2, 3)) });
}

#[test]
fn unnamed_portal_is_named_after_its_cell() {
    let t = TeleportSettings::unnamed(c(1, -2, 3));
    assert_eq!(t.name, "Portal 104");
    assert_eq!(t.pair, None);
    assert_eq!(TeleportSettings::unnamed(c(0, 0, 0)).name, "Portal 0");
}

#[test]
fn settings_kinds() {
    let conv = |input: u32| {
        BlockSettings::Converter(ConverterSettings {
            mode: ConverterMode::AnyInput,
            input: MaterialBlockId(input),
            output: MaterialBlockId(2),
        })
    };
    let portal = BlockSettings::Teleport(TeleportSettings::unnamed(c(1, 1, 1)));
    assert!(conv(1).matches_kind(&conv(5)));
    assert!(!conv(1).matches_kind(&portal));
    assert_eq!(EditSelectionMode::default(), EditSelectionMode::Point);
}

#[test]
fn welds_are_stored_in_order() {
    let w = MaterialWeld::new(BlockId(9), BlockId(4));
    assert_eq!(w.a, BlockId(4));
    assert_eq!(w.b, BlockId(9));
    assert_eq!(w.other(BlockId(4)), Some(BlockId(9)));
    assert_eq!(w.other(BlockId(5)), None);
    assert!(w.contains(BlockId(9)));
}

#[test]
fn welded_material_structure() {
    let mut m: CellMap<BlockId> = CellMap::new();
    m.insert(c(0, 0, 0), BlockId(1));
    m.insert(c(1, 0, 0), BlockId(2));
    m.insert(c(5, 0, 0), BlockId(3));
    m.insert(c(6, 0, 0), BlockId(0));
    let welds = vec![MaterialWeld::new(BlockId(1), BlockId(2))];
    let s = material_structure(&m, &welds, c(0, 0, 0));
    assert_eq!(s.len(), 2);
    assert!(s.contains(c(1, 0, 0)));
    assert_eq!(material_structure(&m, &welds, c(5, 0, 0)).len(), 1);
    assert!(material_structure(&m, &welds, c(6, 0, 0)).is_empty());
    assert!(material_structure(&m, &welds, c(9, 9, 9)).is_empty());
    let chain = vec![MaterialWeld::new(BlockId(2), BlockId(3)), MaterialWeld::new(BlockId(1), BlockId(2))];
    assert_eq!(material_structure(&m, &chain, c(5, 0, 0)).len(), 3);
}

#[test]
fn pusher_state_from_snapshots() {
    let snaps = [
        PusherSnapshot { id: BlockId(1), extended: false, bound_front: true },
        PusherSnapshot { id: BlockId(3), extended: true, bound_front: false },
    ];
    let mut st = PusherState::rebuild_from_world(&snaps);
    assert!(!st.is_extended(BlockId(1)));
    assert!(st.is_extended(BlockId(3)));
    assert!(!st.is_extended(BlockId(7)));
    assert!(st.set_extended(BlockId(1), true));
    assert!(st.is_extended(BlockId(1)));
    assert!(!st.set_extended(BlockId(1), true));
    assert!(!st.set_extended(BlockId(7), true));
    assert!(!st.is_extended(BlockId(7)));
    st.clear();
    assert!(!st.is_extended(BlockId(3)));
}

#[test]
fn devices_actuate_when_wanted_extension_differs() {
    let snaps = [
        PusherSnapshot { id: BlockId(1), extended: false, bound_front: false },
        PusherSnapshot { id: BlockId(2), extended: false, bound_front: false },
        PusherSnapshot { id: BlockId(3), extended: true, bound_front: false },
    ];
    let st = PusherState::rebuild_from_world(&snaps);
    let devices = [
        PusherDevice { pos: c(0, 0, 0), id: BlockId(1), extend_when_powered: true },
        PusherDevice { pos: c(1, 0, 0), id: BlockId(2), extend_when_powered: false },
        PusherDevice { pos: c(2, 0, 0), id: BlockId(3), extend_when_powered: true },
    ];
    let powered = CellSet::from_slice(&[c(0, 0, 0), c(2, 0, 0)]);
    let act = st.actuating_devices(&devices, &powered);
    assert_eq!(act.len(), 2);
    assert!(act.contains(c(0, 0, 0)));
    assert!(act.contains(c(1, 0, 0)));
    assert!(!act.contains(c(2, 0, 0)));
}

#[test]
fn stamps_land_when_due() {
    let mut p = PendingTurnEffects::new();
    p.mark_stamp(c(0, 0, 0), BlockId(5), c(0, 1, 0), StampMaterialId(2), 3);
    p.mark_stamp(c(0, 0, 0), BlockId(6), c(0, 1, 0), StampMaterialId(9), 1);
    p.mark_stamp(c(4, 0, 0), BlockId(7), c(1, 0, 0), StampMaterialId(1), 5);
    assert!(p.take_ready_stamps(2).is_empty());
    let ready = p.take_ready_stamps(3);
    assert_eq!(ready.len(), 1);
    assert_eq!(ready[0].0, c(0, 0, 0));
    assert_eq!(ready[0].1.host, BlockId(5));
    assert!(p.take_ready_stamps(3).is_empty());
    assert_eq!(p.take_ready_stamps(10).len(), 1);
    p.mark_stamp(c(0, 0, 0), BlockId(5), c(0, 1, 0), StampMaterialId(2), 1);
    p.clear();
    assert!(p.take_ready_stamps(10).is_empty());
}

#[test]
fn cell_map_and_set_basics() {
    let mut m: CellMap<u32> = CellMap::new();
    assert!(m.is_empty());
    assert_eq!(m.insert(c(1, 1, 1), 5), None);
    assert_eq!(m.insert(c(1, 1, 1), 6), Some(5));
    assert_eq!(m.get(c(1, 1, 1)), Some(6));
    assert_eq!(m.len(), 1);
    assert_eq!(m.remove(c(1, 1, 1)), Some(6));
    assert!(!m.contains_key(c(1, 1, 1)));
    let mut s = CellSet::from_slice(&[c(0, 0, 0), c(0, 0, 0), c(1, 0, 0)]);
    assert_eq!(s.len(), 2);
    assert!(!s.insert(c(1, 0, 0)));
    assert!(s.remove(c(0, 0, 0)));
    assert!(!s.contains(c(0, 0, 0)));
    s.extend(&CellSet::from_slice(&[c(2, 0, 0), c(1, 0, 0)]));
    assert_eq!(s.len(), 2);
}

#[test]
fn extended_pushers_are_held_out() {
    let snaps = [
        PusherSnapshot { id: BlockId(1), extended: true, bound_front: false },
        PusherSnapshot { id: BlockId(2), extended: false, bound_front: false },
    ];
    let st = PusherState::rebuild_from_world(&snaps);
    let mut blocks: CellMap<BlockId> = CellMap::new();
    blocks.insert(c(0, 0, 0), BlockId(1));
    blocks.insert(c(3, 0, 0), BlockId(2));
    blocks.insert(c(5, 0, 0), BlockId(9));
    let held = st.sustained_animations(&blocks);
    assert_eq!(held.len(), 1);
    let m = held.get(c(0, 0, 0)).unwrap();
    assert!(m.from_extended && m.to_extended);
    assert!(held.get(c(3, 0, 0)).is_none());
}

#[test]
fn portal_names_follow_the_cell_hash() {
    assert_eq!(TeleportSettings::unnamed(c(1, -2, 3)).name, "Portal 104");
    assert_eq!(TeleportSettings::unnamed(c(0, 0, 0)).name, "Portal 0");
}

#[test]
fn a_structure_id_defaults_to_none() {
    let id: oif_sim::ids::StructureId = Default::default();
    assert!(id.is_none());
}
