//! Initial placement of a newly spawned entity: a random point inside a
//! bounded square region around the origin.

use rand::Rng;
use vstd::prelude::*;

use crate::protocol::Position;

verus! {

pub const PLACEMENT_MIN: i64 = -100;

pub const PLACEMENT_MAX: i64 = 100;

/// Relies on rand::Rng::gen_range on rand::thread_rng: it returns a value
/// inside the given half-open range, and panics only on an empty range,
/// which the precondition rules out.
#[verifier::external_body]
fn random_coord(lo: i64, hi: i64) -> (r: i64)
    requires
        lo < hi,
    ensures
        lo <= r < hi,
{
    rand::thread_rng().gen_range(lo..hi)
}

/// A random placement inside the bounded spawn region.
pub fn random_position() -> (p: Position)
    ensures
        PLACEMENT_MIN <= p.x < PLACEMENT_MAX,
        PLACEMENT_MIN <= p.y < PLACEMENT_MAX,
{
    Position {
        x: random_coord(PLACEMENT_MIN, PLACEMENT_MAX),
        y: random_coord(PLACEMENT_MIN, PLACEMENT_MAX),
    }
}

} // verus!
