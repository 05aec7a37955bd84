//! Verified core of a block-factory simulation: grid geometry, block and
//! structure identities, structure bookkeeping, movement planning and arbitration.
pub mod cell;
pub mod ids;
pub mod cellmap;
pub mod structure;
pub mod structure_state;
pub mod suction;
pub mod moves;
pub mod history;
pub mod occupancy;
pub mod plan;
pub mod pusher;
pub mod pending;
pub mod optics;
pub mod settings;
pub mod connectivity;
pub mod signals;
pub mod materials;
pub mod factory;
pub mod activity;
pub mod deform;
pub mod deform_groups;
pub mod deform_graph;
pub mod deform_query;
pub mod influence;
pub mod rebuild;
pub mod edit;
pub mod support;
pub mod rotation;
pub mod motion;
pub mod turn;
pub mod grid;
pub mod shatter;
pub mod stamps;

