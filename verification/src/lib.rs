//! goetia — the deterministic core of a data-oriented game engine: an
//! archetype ECS, conflict-aware system batching, named PCG streams, FNV
//! state hashing, double-buffered events, status effects, layered stat
//! sheets, the budgeted trigger queue, seeded realm assembly, pity tables,
//! data-registry and save bookkeeping, input edges and the UI font atlas.

use vstd::prelude::*;

pub mod hash;
pub mod pcg;
pub mod events;
pub mod ecs;
pub mod schedule;
pub mod combat;
pub mod stats;
pub mod triggers;
pub mod vocab;
pub mod rooms;
pub mod data;
pub mod table;
pub mod ui;
pub mod input;

verus! {

} // verus!
