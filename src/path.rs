use vstd::prelude::*;

verus! {

/// The most bounces a path of the emissive-light integrator takes.
pub const MAX_BOUNCE: u32 = 50;

/// The deepest recursion of the background-sampling integrator; past it a
/// path carries no radiance.
pub const MAX_DEPTH: u32 = 10;

/// What one bounce of a path found.
#[derive(Clone, Copy, Debug, PartialEq, Eq, Structural)]
pub enum Bounce {
    /// The ray left the scene.
    Miss,
    /// The material gave no scattered direction.
    Absorbed,
    /// The material gave a direction whose sampling density is zero.
    ZeroPdf,
    /// The material gave a direction with a positive density.
    Scattered,
}

/// What the background-sampling integrator returns for one bounce.
#[derive(Clone, Copy, Debug, PartialEq, Eq, Structural)]
pub enum Radiance {
    /// No light.
    Zero,
    /// The environment's radiance along the ray.
    Background,
    /// The scattered estimate, traced on at the given depth.
    Trace(u32),
}

/// Emissive-light form: after bounce number `bounce` found `found`, and the
/// Russian roulette draw (made only after a scatter) `survived`, the number
/// of the next bounce, or `None` when the path ends. A path ends on a miss,
/// on absorption, on a zero density, when the roulette kills it, and after
/// `MAX_BOUNCE` bounces.
pub fn next_bounce(bounce: u32, found: Bounce, survived: bool) -> (r: Option<u32>)
    ensures
        r is Some <==> (found == Bounce::Scattered && survived && bounce + 1 < MAX_BOUNCE),
        r is Some ==> r->0 == bounce + 1,
{
    match found {
        Bounce::Scattered => {
            if survived && bounce < MAX_BOUNCE - 1 {
                Some(bounce + 1)
            } else {
                None
            }
        },
        _ => None,
    }
}

/// Background-sampling form: what a bounce at recursion depth `depth` that
/// found `found` contributes. Past `MAX_DEPTH` nothing; a miss sees the
/// background; absorption and a zero density give nothing; a scatter is
/// traced one level deeper.
pub fn trace_step(depth: u32, found: Bounce) -> (r: Radiance)
    ensures
        depth > MAX_DEPTH ==> r == Radiance::Zero,
        depth <= MAX_DEPTH ==> r == match found {
            Bounce::Miss => Radiance::Background,
            Bounce::Scattered => Radiance::Trace((depth + 1) as u32),
            _ => Radiance::Zero,
        },
{
    if depth > MAX_DEPTH {
        return Radiance::Zero;
    }
    match found {
        Bounce::Miss => Radiance::Background,
        Bounce::Scattered => Radiance::Trace(depth + 1),
        _ => Radiance::Zero,
    }
}

} // verus!
