use oif_sim::cell::Cell;
use oif_sim::cellmap::{CellMap, CellSet};
use oif_sim::ids::{BlockId, MaterialFace};
use oif_sim::signals::{SignalBlock, SignalComponentId, SignalNetworkCache, SignalRole, WireFaces};

fn c(x: i32, y: i32, z: i32) -> Cell {
    Cell::new(x, y, z)
}

fn put(g: &mut CellMap<SignalBlock>, pos: Cell, id: u64, role: SignalRole) {
    g.insert(pos, SignalBlock { id: BlockId(id), role });
}

/// Wires 1, 2 at (0,0,0), (1,0,0); wire 3 at (2,0,0) behind a panel; wire 4 alone at
/// (0,0,5).  Detector 10 above wire 1 watching the cell above it; device 20 next to
/// wire 3 on all faces; device 21 wired only toward +Z, below wire 4; an inert block.
fn grid() -> CellMap<SignalBlock> {
    let mut g = CellMap::new();
    put(&mut g, c(0, 0, 0), 1, SignalRole::Wire);
    put(&mut g, c(1, 0, 0), 2, SignalRole::Wire);
    put(&mut g, c(2, 0, 0), 3, SignalRole::Wire);
    put(&mut g, c(0, 0, 5), 4, SignalRole::Wire);
    put(&mut g, c(0, 1, 0), 10, SignalRole::Detector { detection: c(0, 1, 0) });
    put(&mut g, c(3, 0, 0), 20, SignalRole::Device { faces: WireFaces::All });
    put(&mut g, c(0, 0, 4), 21, SignalRole::Device { faces: WireFaces::Only(c(0, 0, 1)) });
    put(&mut g, c(5, 5, 5), 30, SignalRole::Inert);
    g
}

fn panel() -> Vec<MaterialFace> {
    vec![MaterialFace::new(BlockId(2), c(1, 0, 0))]
}

fn built() -> (CellMap<SignalBlock>, SignalNetworkCache) {
    let g = grid();
    let mut cache = SignalNetworkCache::new();
    cache.refresh(&g, &panel(), 1);
    (g, cache)
}

#[test]
fn components_split_at_panels() {
    let (g, cache) = built();
    let first = cache.component_touching(&g, c(0, 0, 0));
    assert_eq!(first, Some(SignalComponentId(0)));
    assert_eq!(cache.component_touching(&g, c(1, 0, 0)), first);
    assert_eq!(cache.component_touching(&g, c(2, 0, 0)), Some(SignalComponentId(1)));
    assert_eq!(cache.component_touching(&g, c(0, 0, 5)), Some(SignalComponentId(2)));
}

#[test]
fn touching_a_device_or_a_neighbour() {
    let (g, cache) = built();
    assert_eq!(cache.component_touching(&g, c(3, 0, 0)), Some(SignalComponentId(1)));
    assert_eq!(cache.component_touching(&g, c(0, 0, 4)), Some(SignalComponentId(2)));
    assert_eq!(cache.component_touching(&g, c(0, -1, 0)), Some(SignalComponentId(0)));
    assert_eq!(cache.component_touching(&g, c(9, 9, 9)), None);
    assert_eq!(cache.component_touching(&g, c(5, 5, 5)), None);
}

#[test]
fn detectors_power_their_component() {
    let (g, cache) = built();
    let none = CellSet::new();
    assert!(cache.powered_components(&g, &none, &none).is_empty());
    let watched = CellSet::from_slice(&[c(0, 2, 0)]);
    assert_eq!(cache.powered_components(&g, &none, &watched), vec![SignalComponentId(0)]);
    let hit = CellSet::from_slice(&[c(0, 1, 0)]);
    assert_eq!(cache.powered_components(&g, &hit, &none), vec![SignalComponentId(0)]);
    let elsewhere = CellSet::from_slice(&[c(0, 3, 0)]);
    assert!(cache.powered_components(&g, &none, &elsewhere).is_empty());
}

#[test]
fn powered_wires_and_devices() {
    let (g, cache) = built();
    let wires = cache.powered_wires(&g, &[SignalComponentId(0)]);
    assert_eq!(wires.len(), 2);
    assert!(wires.contains(c(0, 0, 0)));
    assert!(wires.contains(c(1, 0, 0)));
    let devices = cache.powered_devices(&g, &[SignalComponentId(1)]);
    assert_eq!(devices.len(), 1);
    assert!(devices.contains(c(3, 0, 0)));
    let devices = cache.powered_devices(&g, &[SignalComponentId(2)]);
    assert!(devices.contains(c(0, 0, 4)));
    assert!(cache.powered_devices(&g, &[SignalComponentId(0)]).is_empty());
}

#[test]
fn device_wired_through_one_face_only() {
    let mut g = grid();
    put(&mut g, c(0, 0, 6), 22, SignalRole::Device { faces: WireFaces::Only(c(1, 0, 0)) });
    let mut cache = SignalNetworkCache::new();
    cache.refresh(&g, &panel(), 1);
    assert!(cache.powered_devices(&g, &[SignalComponentId(2)]).contains(c(0, 0, 4)));
    assert!(!cache.powered_devices(&g, &[SignalComponentId(2)]).contains(c(0, 0, 6)));
}

#[test]
fn query_lists_sorted_wires_and_devices() {
    let g = grid();
    let mut cache = SignalNetworkCache::new();
    let watched = CellSet::from_slice(&[c(0, 2, 0)]);
    let q = cache.query_power_at(&g, &panel(), 1, &watched, c(1, 0, 0)).unwrap();
    assert_eq!(q.component, SignalComponentId(0));
    assert_eq!(q.wires, vec![c(0, 0, 0), c(1, 0, 0)]);
    assert!(q.devices.is_empty());
    assert!(q.powered);
    let q = cache.query_power_at(&g, &panel(), 1, &watched, c(2, 0, 0)).unwrap();
    assert_eq!(q.component, SignalComponentId(1));
    assert_eq!(q.wires, vec![c(2, 0, 0)]);
    assert_eq!(q.devices, vec![c(3, 0, 0)]);
    assert!(!q.powered);
    assert!(cache.query_power_at(&g, &panel(), 1, &watched, c(9, 9, 9)).is_none());
}

#[test]
fn refresh_keeps_the_cache_for_the_same_revision() {
    let (g, mut cache) = built();
    let no_panels: Vec<MaterialFace> = Vec::new();
    cache.refresh(&g, &no_panels, 1);
    assert_eq!(cache.component_touching(&g, c(2, 0, 0)), Some(SignalComponentId(1)));
    cache.refresh(&g, &no_panels, 2);
    assert_eq!(cache.component_touching(&g, c(2, 0, 0)), Some(SignalComponentId(0)));
    assert_eq!(cache.component_touching(&g, c(3, 0, 0)), Some(SignalComponentId(0)));
}

#[test]
fn panel_on_either_face_cuts_the_link() {
    let g = grid();
    let mut cache = SignalNetworkCache::new();
    let other_side = vec![MaterialFace::new(BlockId(3), c(-1, 0, 0))];
    cache.refresh(&g, &other_side, 1);
    assert_ne!(cache.component_touching(&g, c(1, 0, 0)), cache.component_touching(&g, c(2, 0, 0)));
}
