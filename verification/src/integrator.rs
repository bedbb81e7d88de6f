//! How a light path goes on or ends.
//!
//! A ray is followed from bounce to bounce. What the scene and the surface
//! report for it, and how many bounces lie behind it, decide what its colour
//! is made of.

use vstd::prelude::*;

verus! {

/// The most bounces a light path may take.
pub const MAX_RAY_RECURSION: u32 = 50;

/// What the colour of a ray is made of.
#[derive(Clone, Copy, Debug, PartialEq, Eq, Structural)]
pub enum Shade {
    /// Nothing was hit: the sky gradient.
    Sky,
    /// The surface scattered the ray: its attenuation times the colour of
    /// the scattered ray, which is one bounce deeper.
    Bounce,
    /// The path used up its bounces: the marker colour for runaway paths.
    Runaway,
    /// The surface did not scatter the ray: its attenuation alone.
    Absorbed,
}

/// Whether the surface is asked to scatter a ray: only when something was
/// hit and the path has bounces left.
pub open spec fn consults_material(hit: bool, depth: u32) -> bool {
    hit && depth < MAX_RAY_RECURSION
}

/// What the colour of a ray is made of, `depth` bounces into its path.
/// `scattered` counts only where the surface was asked.
pub open spec fn shade_of(hit: bool, depth: u32, scattered: bool) -> Shade {
    if !hit {
        Shade::Sky
    } else if depth < MAX_RAY_RECURSION && scattered {
        Shade::Bounce
    } else if depth == MAX_RAY_RECURSION {
        Shade::Runaway
    } else {
        Shade::Absorbed
    }
}

/// Is the surface to be asked whether it scatters the ray?
pub fn asks_material(hit: bool, depth: u32) -> (asks: bool)
    ensures
        asks == consults_material(hit, depth),
{
    hit && depth < MAX_RAY_RECURSION
}

/// Decides what the colour of a ray is made of.
///
/// `hit` says whether the ray met a surface, `depth` how many bounces lie
/// behind it, and `scattered` what the surface answered, if it was asked.
pub fn shade(hit: bool, depth: u32, scattered: bool) -> (kind: Shade)
    ensures
        kind == shade_of(hit, depth, scattered),
{
    if !hit {
        Shade::Sky
    } else if depth < MAX_RAY_RECURSION && scattered {
        Shade::Bounce
    } else if depth == MAX_RAY_RECURSION {
        Shade::Runaway
    } else {
        Shade::Absorbed
    }
}

/// A path goes on only while it has bounces left, so the ray after a bounce
/// is never deeper than the limit; and at the limit a hit is a runaway.
pub proof fn lemma_paths_end(hit: bool, depth: u32, scattered: bool)
    requires
        depth <= MAX_RAY_RECURSION,
    ensures
        shade_of(hit, depth, scattered) is Bounce ==> depth + 1 <= MAX_RAY_RECURSION,
        depth == MAX_RAY_RECURSION ==> !(shade_of(hit, depth, scattered) is Bounce),
        hit && depth == MAX_RAY_RECURSION ==> shade_of(hit, depth, scattered) is Runaway,
{
}

} // verus!
