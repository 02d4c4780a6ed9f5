//! Lattice coordinates and wire identifiers.
use vstd::prelude::*;

verus! {

/// A point of the cubic lattice: `(x, y, z)`.
pub type IntPos3 = (usize, usize, usize);

/// A wire: the ordered pair of lattice points at the two ends of one cell edge.
pub type WireId = (IntPos3, IntPos3);

/// `b` is `a` moved one step up along `axis` (0 = x, 1 = y, 2 = z).
pub open spec fn unit_step(a: IntPos3, b: IntPos3, axis: int) -> bool {
    &&& (axis == 0 ==> b.0 == a.0 + 1 && b.1 == a.1 && b.2 == a.2)
    &&& (axis == 1 ==> b.0 == a.0 && b.1 == a.1 + 1 && b.2 == a.2)
    &&& (axis == 2 ==> b.0 == a.0 && b.1 == a.1 && b.2 == a.2 + 1)
    &&& 0 <= axis < 3
}

/// A wire id spans exactly one cell edge, from the lower end to the upper end.
pub open spec fn is_wire(id: WireId) -> bool {
    unit_step(id.0, id.1, 0) || unit_step(id.0, id.1, 1) || unit_step(id.0, id.1, 2)
}

/// The axis along which a valid wire runs.
pub open spec fn axis_of(id: WireId) -> int {
    if id.1.0 > id.0.0 {
        0
    } else if id.1.1 > id.0.1 {
        1
    } else {
        2
    }
}

/// Lexicographic order of lattice points: by `x`, then `y`, then `z`.
pub open spec fn pos_lt(a: IntPos3, b: IntPos3) -> bool {
    a.0 < b.0 || (a.0 == b.0 && (a.1 < b.1 || (a.1 == b.1 && a.2 < b.2)))
}

/// Lexicographic order of wire ids: by the first end, then the second.
pub open spec fn wire_lt(p: WireId, q: WireId) -> bool {
    pos_lt(p.0, q.0) || (p.0 == q.0 && pos_lt(p.1, q.1))
}

/// Whether `p` comes before `q` in the lexicographic order of wire ids.
pub fn wire_less(p: WireId, q: WireId) -> (r: bool)
    ensures
        r == wire_lt(p, q),
{
    let ((a0, a1, a2), (a3, a4, a5)) = p;
    let ((b0, b1, b2), (b3, b4, b5)) = q;
    if a0 != b0 {
        a0 < b0
    } else if a1 != b1 {
        a1 < b1
    } else if a2 != b2 {
        a2 < b2
    } else if a3 != b3 {
        a3 < b3
    } else if a4 != b4 {
        a4 < b4
    } else {
        a5 < b5
    }
}

/// Whether two lattice points are the same.
pub fn same_pos(a: IntPos3, b: IntPos3) -> (r: bool)
    ensures
        r == (a == b),
{
    a.0 == b.0 && a.1 == b.1 && a.2 == b.2
}

/// Whether two wire ids are the same, orientation included.
pub fn same_wire(p: WireId, q: WireId) -> (r: bool)
    ensures
        r == (p == q),
{
    same_pos(p.0, q.0) && same_pos(p.1, q.1)
}

/// Returns the axis of a wire id, or `None` when the id does not span exactly
/// one cell edge in the increasing direction.
pub fn wire_axis(id: WireId) -> (r: Option<usize>)
    ensures
        r is Some <==> is_wire(id),
        r matches Some(axis) ==> axis == axis_of(id) && unit_step(id.0, id.1, axis as int),
{
    let ((ax, ay, az), (bx, by, bz)) = id;
    if ax < usize::MAX && bx == ax + 1 && by == ay && bz == az {
        Some(0)
    } else if ay < usize::MAX && bx == ax && by == ay + 1 && bz == az {
        Some(1)
    } else if az < usize::MAX && bx == ax && by == ay && bz == az + 1 {
        Some(2)
    } else {
        None
    }
}

/// Whether a wire id spans exactly one cell edge in the increasing direction.
pub fn is_valid_wire(id: WireId) -> (r: bool)
    ensures
        r == is_wire(id),
{
    wire_axis(id).is_some()
}

/// A valid wire is determined by its lower end and its axis.
pub proof fn lemma_wire_determined_by_start(p: WireId, q: WireId)
    requires
        is_wire(p),
        is_wire(q),
        p.0 == q.0,
        axis_of(p) == axis_of(q),
    ensures
        p == q,
{
}

} // verus!
