//! Picking up, holding and releasing physics objects in a shared scene.
//!
//! `registry` keeps who holds what, `scene` resolves interaction messages and
//! runs the spawn and despawn lifecycle, `hold` computes the bounded force that
//! drives each held object toward a point in front of its holder's view, and
//! `client` decides which interaction messages a frame of input sends.

use vstd::prelude::*;

pub mod client;
pub mod hold;
pub mod registry;
pub mod scene;

verus! {

} // verus!
