//! Small grid helpers: the four cardinal directions and cyclic indexing.

use vstd::prelude::*;

verus! {

/// The x-offset of a direction: `-1, 0, 1, 0` for directions `0..4`
/// (the direction is taken modulo 4).
pub open spec fn spec_dir_offset_x(direction: u8) -> int {
    let d = direction % 4;
    if d == 0 {
        -1
    } else if d == 2 {
        1
    } else {
        0
    }
}

/// The z-offset of a direction: `0, 1, 0, -1` for directions `0..4`
/// (the direction is taken modulo 4).
pub open spec fn spec_dir_offset_z(direction: u8) -> int {
    let d = direction % 4;
    if d == 1 {
        1
    } else if d == 3 {
        -1
    } else {
        0
    }
}

/// Gets the standard width (x-axis) offset for the specified direction.
pub fn dir_offset_x(direction: u8) -> (r: i8)
    ensures
        r == spec_dir_offset_x(direction),
{
    let d = direction & 0x03;
    proof {
        assert(direction & 0x03 == direction % 4) by (bit_vector);
    }
    if d == 0 {
        -1
    } else if d == 2 {
        1
    } else {
        0
    }
}

/// Gets the standard height (z-axis) offset for the specified direction.
pub fn dir_offset_z(direction: u8) -> (r: i8)
    ensures
        r == spec_dir_offset_z(direction),
{
    let d = direction & 0x03;
    proof {
        assert(direction & 0x03 == direction % 4) by (bit_vector);
    }
    if d == 1 {
        1
    } else if d == 3 {
        -1
    } else {
        0
    }
}

/// The index after `i` in a cycle of length `n`.
pub open spec fn spec_next(i: int, n: int) -> int {
    if i + 1 < n {
        i + 1
    } else {
        0
    }
}

/// The index before `i` in a cycle of length `n`.
pub open spec fn spec_prev(i: int, n: int) -> int {
    if i >= 1 {
        i - 1
    } else {
        n - 1
    }
}

/// The index after `i` in a cycle of length `n`.
pub fn next(i: usize, n: usize) -> (r: usize)
    requires
        i < n,
    ensures
        r == spec_next(i as int, n as int),
        r < n,
{
    if i + 1 < n {
        i + 1
    } else {
        0
    }
}

/// The index before `i` in a cycle of length `n`.
pub fn prev(i: usize, n: usize) -> (r: usize)
    requires
        i < n,
    ensures
        r == spec_prev(i as int, n as int),
        r < n,
{
    if i >= 1 {
        i - 1
    } else {
        n - 1
    }
}

/// The direction of a unit offset along one axis: `(-1, 0)` is 0,
/// `(0, 1)` is 1, `(1, 0)` is 2 and `(0, -1)` is 3.
pub fn dir_offset(offset_x: i32, offset_z: i32) -> (r: u8)
    requires
        (offset_x == 0 && (offset_z == 1 || offset_z == -1)) || (offset_z == 0 && (offset_x == 1 || offset_x == -1)),
    ensures
        r < 4,
        spec_dir_offset_x(r) == offset_x,
        spec_dir_offset_z(r) == offset_z,
        r == (if offset_x == -1 {
            0u8
        } else if offset_z == 1 {
            1u8
        } else if offset_x == 1 {
            2u8
        } else {
            3u8
        }),
{
    if offset_x == -1 {
        0
    } else if offset_z == 1 {
        1
    } else if offset_x == 1 {
        2
    } else {
        3
    }
}

} // verus!
