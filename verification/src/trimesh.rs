//! The index and area data of a triangle mesh used as rasterization input.

use vstd::prelude::*;
use crate::area::AreaType;

verus! {

/// The triangles of a mesh: the number of its vertices, one index triple
/// per triangle into them, and one area type per triangle. The vertex
/// positions themselves are kept by the caller.
#[derive(Debug, Clone, PartialEq)]
pub struct TriMeshTopology {
    /// The number of vertices of the mesh.
    pub vertex_count: usize,
    /// The vertex indices of each triangle.
    pub indices: Vec<(u32, u32, u32)>,
    /// The area type of each triangle.
    pub area_types: Vec<AreaType>,
}

/// The triangle `t` with `offset` added to each of its indices.
pub open spec fn offset_triangle(t: (u32, u32, u32), offset: int) -> (u32, u32, u32) {
    ((t.0 + offset) as u32, (t.1 + offset) as u32, (t.2 + offset) as u32)
}

impl TriMeshTopology {
    /// Extends the mesh with the triangles of another mesh. The indices of
    /// `other` are offset by the number of vertices in `self`.
    pub fn extend(&mut self, other: TriMeshTopology)
        requires
            old(self).vertex_count <= u32::MAX,
            old(self).vertex_count + other.vertex_count <= usize::MAX,
            forall|k: int|
                0 <= k < other.indices@.len() ==> {
                    let t = #[trigger] other.indices@[k];
                    &&& t.0 + old(self).vertex_count <= u32::MAX
                    &&& t.1 + old(self).vertex_count <= u32::MAX
                    &&& t.2 + old(self).vertex_count <= u32::MAX
                },
        ensures
            final(self).vertex_count == old(self).vertex_count + other.vertex_count,
            final(self).indices@ == old(self).indices@ + other.indices@.map_values(
                |t: (u32, u32, u32)| offset_triangle(t, old(self).vertex_count as int),
            ),
            final(self).area_types@ == old(self).area_types@ + other.area_types@,
    {
        let next_vertex_index = self.vertex_count as u32;
        let ghost old_indices = self.indices@;
        let ghost old_areas = self.area_types@;
        let mut k: usize = 0;
        while k < other.indices.len()
            invariant
                next_vertex_index == old(self).vertex_count,
                self.vertex_count == old(self).vertex_count,
                old_indices == old(self).indices@,
                k <= other.indices@.len(),
                forall|k2: int|
                    0 <= k2 < other.indices@.len() ==> {
                        let t = #[trigger] other.indices@[k2];
                        &&& t.0 + next_vertex_index <= u32::MAX
                        &&& t.1 + next_vertex_index <= u32::MAX
                        &&& t.2 + next_vertex_index <= u32::MAX
                    },
                self.indices@ == old_indices + other.indices@.take(k as int).map_values(
                    |t: (u32, u32, u32)| offset_triangle(t, next_vertex_index as int),
                ),
                self.area_types@ == old_areas,
            decreases other.indices@.len() - k,
        {
            let t = other.indices[k];
            self.indices.push((t.0 + next_vertex_index, t.1 + next_vertex_index, t.2 + next_vertex_index));
            proof {
                assert(other.indices@.take(k + 1) == other.indices@.take(k as int).push(t));
                assert(self.indices@ =~= old_indices + other.indices@.take(k + 1).map_values(
                    |t: (u32, u32, u32)| offset_triangle(t, next_vertex_index as int),
                ));
            }
            k = k + 1;
        }
        proof {
            assert(other.indices@.take(other.indices@.len() as int) == other.indices@);
            assert(self.indices@ == old_indices + other.indices@.map_values(
                |t: (u32, u32, u32)| offset_triangle(t, old(self).vertex_count as int),
            ));
        }
        let mut k: usize = 0;
        while k < other.area_types.len()
            invariant
                k <= other.area_types@.len(),
                self.vertex_count == old(self).vertex_count,
                old(self).vertex_count + other.vertex_count <= usize::MAX,
                old_areas == old(self).area_types@,
                self.indices@ == old_indices + other.indices@.map_values(
                    |t: (u32, u32, u32)| offset_triangle(t, old(self).vertex_count as int),
                ),
                self.area_types@ == old_areas + other.area_types@.take(k as int),
            decreases other.area_types@.len() - k,
        {
            self.area_types.push(other.area_types[k]);
            proof {
                assert(other.area_types@.take(k + 1) == other.area_types@.take(k as int).push(other.area_types@[k as int]));
            }
            k = k + 1;
        }
        proof {
            assert(other.area_types@.take(other.area_types@.len() as int) == other.area_types@);
        }
        self.vertex_count = self.vertex_count + other.vertex_count;
    }
}

} // verus!
