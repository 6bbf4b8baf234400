//! The drawable component: which geometry an object is drawn with, and
//! which material.
use vstd::prelude::*;

use crate::Entity;

verus! {

/// What an object is drawn with. Drawables order by geometry, then by
/// material, so draw lists sorted by them batch by geometry.
#[derive(Clone, Copy, Debug, Default, PartialEq, Eq, Structural, PartialOrd, Ord, Hash)]
pub struct Drawable {
    pub geometry: Entity,
    pub material: Entity,
}

} // verus!
