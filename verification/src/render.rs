//! Vertex and index data for flat-shaded rendering.

use vstd::prelude::*;
use crate::point::Point;
use crate::triangle::{face_normal, is_normal, spans_area, Triangle};
use crate::vector::Vector;

verus! {

/// A corner of a rendered triangle.
#[derive(Clone, Debug)]
pub struct Vertex {
    /// Where the corner lies.
    pub position: Point<3>,
    /// The normal of the face that the corner belongs to.
    pub normal: Vector<3>,
}

/// `n` is the normal that the vertices of the triangle `t` carry: the normal
/// of length one where the triangle is valid. A triangle that is not valid
/// has no such normal; its vertices carry the cross product of its edges as
/// it is.
pub open spec fn is_vertex_normal(t: Seq<Seq<real>>, n: Seq<real>) -> bool {
    if spans_area(t) {
        is_normal(t, n)
    } else {
        n == face_normal(t)
    }
}

/// The triangles would need more indices than an index of 32 bits can count.
#[derive(Clone, Copy, Debug, PartialEq, Eq, Structural)]
pub struct UnsupportedIndexCount {
    /// The number of triangles that was asked for.
    pub triangles: usize,
}

/// The vertices and indices of a list of triangles. No vertex is shared: each
/// triangle has three vertices of its own, which carry the normal of its face.
#[derive(Clone, Debug)]
pub struct Geometry {
    /// Three vertices for each triangle, in the order of the triangles.
    pub vertices: Vec<Vertex>,
    /// The index of each vertex, in order.
    pub indices: Vec<u32>,
    /// The number of indices.
    pub num_indices: u32,
}

/// The number of indices that `triangles` triangles need, three each, where
/// an index of 32 bits can count them.
pub fn index_count(triangles: usize) -> (r: Result<u32, UnsupportedIndexCount>)
    ensures
        3 * triangles <= u32::MAX ==> r == Ok::<u32, UnsupportedIndexCount>((3 * triangles) as u32),
        3 * triangles > u32::MAX ==> r == Err::<u32, UnsupportedIndexCount>(
            UnsupportedIndexCount { triangles },
        ),
{
    if triangles <= 1431655765 {
        Ok((3 * triangles) as u32)
    } else {
        Err(UnsupportedIndexCount { triangles })
    }
}

impl Geometry {
    /// What `new` makes of the triangles `ts`.
    pub open spec fn renders(&self, ts: Seq<Triangle<3>>) -> bool {
        &&& self.num_indices == 3 * ts.len()
        &&& self.vertices@.len() == 3 * ts.len()
        &&& self.indices@.len() == 3 * ts.len()
        &&& forall|i: int| 0 <= i < 3 * ts.len() ==> #[trigger] self.indices@[i] == i
        &&& forall|k: int, c: int|
            0 <= k < ts.len() && 0 <= c < 3 ==> {
                let v = #[trigger] self.vertices@[3 * k + c];
                v.position@ == ts[k]@[c] && is_vertex_normal(ts[k]@, v.normal@)
            }
    }

    /// The vertices and indices of the triangles: for each triangle its three
    /// points, each with the normal of the face, and the indices `0, 1, 2, ..`
    /// in order. Fails where there are more indices than 32 bits can count.
    pub fn new(triangles: &Vec<Triangle<3>>) -> (r: Result<Geometry, UnsupportedIndexCount>)
        ensures
            r is Ok <==> 3 * triangles@.len() <= u32::MAX,
            r matches Ok(g) ==> g.renders(triangles@),
            r matches Err(e) ==> e.triangles == triangles@.len(),
    {
        let num_indices = match index_count(triangles.len()) {
            Ok(n) => n,
            Err(e) => {
                return Err(e);
            },
        };
        let mut vertices: Vec<Vertex> = Vec::new();
        let mut indices: Vec<u32> = Vec::new();
        let mut k: usize = 0;
        while k < triangles.len()
            invariant
                k <= triangles@.len(),
                3 * triangles@.len() <= u32::MAX,
                vertices@.len() == 3 * k,
                indices@.len() == 3 * k,
                forall|i: int| 0 <= i < 3 * k ==> #[trigger] indices@[i] == i,
                forall|j: int, c: int|
                    0 <= j < k && 0 <= c < 3 ==> {
                        let v = #[trigger] vertices@[3 * j + c];
                        v.position@ == triangles@[j]@[c] && is_vertex_normal(triangles@[j]@, v.normal@)
                    },
            decreases triangles@.len() - k,
        {
            let triangle = &triangles[k];
            let normal = if triangle.is_valid() {
                triangle.normal()
            } else {
                let ab = triangle.points[1].sub(&triangle.points[0]);
                let ac = triangle.points[2].sub(&triangle.points[0]);
                ab.cross(&ac)
            };
            let ghost before = vertices@;
            let mut c: usize = 0;
            while c < 3
                invariant
                    c <= 3,
                    k < triangles@.len(),
                    3 * triangles@.len() <= u32::MAX,
                    triangle == triangles@[k as int],
                    is_vertex_normal(triangle@, normal@),
                    vertices@.len() == 3 * k + c,
                    indices@.len() == 3 * k + c,
                    forall|i: int| 0 <= i < 3 * k + c ==> #[trigger] indices@[i] == i,
                    forall|i: int| 0 <= i < 3 * k ==> #[trigger] vertices@[i] == before[i],
                    forall|d: int|
                        0 <= d < c ==> {
                            let v = #[trigger] vertices@[3 * k + d];
                            v.position@ == triangle@[d] && is_vertex_normal(triangle@, v.normal@)
                        },
                decreases 3 - c,
            {
                let index = vertices.len() as u32;
                let vertex = Vertex { position: triangle.points[c].copy(), normal: normal.copy() };
                indices.push(index);
                vertices.push(vertex);
                c = c + 1;
            }
            proof {
                assert forall|j: int, c: int| 0 <= j < k + 1 && 0 <= c < 3 implies {
                    let v = #[trigger] vertices@[3 * j + c];
                    v.position@ == triangles@[j]@[c] && is_vertex_normal(triangles@[j]@, v.normal@)
                } by {
                    if j < k {
                        assert(vertices@[3 * j + c] == before[3 * j + c]);
                    }
                }
            }
            k = k + 1;
        }
        Ok(Geometry { vertices, indices, num_indices })
    }
}

} // verus!
