//! Turns a sequence of vertex rings, one per stem in traversal order, into a
//! tube: consecutive rings are stitched with two triangles per ring segment.
use vstd::prelude::*;

use crate::mesh::{face_ids, MeshMap, VertexId};

verus! {

/// The two triangles between corner `i` of ring `w` and of ring `w + 1`, where
/// each ring has `r` vertices and ring `w` starts at vertex `w * r`:
/// `(a[i], a[j], b[i])` and `(b[i], a[j], b[j])` with `j = (i + 1) mod r`.
pub open spec fn stitch_face(r: int, w: int, i: int, upper: bool) -> (int, int, int) {
    let j = (i + 1) % r;
    let a = w * r;
    let b = (w + 1) * r;
    if upper {
        (b + i, a + j, b + j)
    } else {
        (a + i, a + j, b + i)
    }
}

/// Faces `2 * (w * r + i)` and the one after it are the two triangles of
/// `stitch_face` for corner `i` of ring `w`.
pub open spec fn stitched_at(faces: Seq<[VertexId; 3]>, r: int, w: int, i: int) -> bool {
    &&& face_ids(faces[2 * (w * r + i)]) == stitch_face(r, w, i, false)
    &&& face_ids(faces[2 * (w * r + i) + 1]) == stitch_face(r, w, i, true)
}

/// Number of triangles that stitching `rings` rings of `r` vertices produces.
pub open spec fn stitch_count(rings: int, r: int) -> int {
    if rings == 0 {
        0
    } else {
        2 * r * (rings - 1)
    }
}

proof fn lemma_lex_lt(w1: int, i1: int, w2: int, i2: int, r: int)
    requires
        0 <= i1 < r,
        0 <= i2,
        0 <= w1,
        w1 < w2 || (w1 == w2 && i1 < i2),
    ensures
        w1 * r + i1 < w2 * r + i2,
{
    if w1 < w2 {
        assert(w1 * r + r <= w2 * r) by (nonlinear_arith)
            requires
                w1 < w2,
                0 < r,
        ;
    }
}

proof fn lemma_mul_succ(w: int, r: int)
    ensures
        (w + 1) * r == w * r + r,
{
    assert((w + 1) * r == w * r + r) by (nonlinear_arith);
}

proof fn lemma_index_bound(w: int, i: int, r: int, n: int)
    requires
        0 <= w < n,
        0 <= i < r,
    ensures
        0 <= w * r + i < n * r,
        (w + 1) * r == w * r + r,
{
    assert(0 <= w * r + i < n * r && (w + 1) * r == w * r + r) by (nonlinear_arith)
        requires
            0 <= w < n,
            0 <= i < r,
    ;
}

/// Builds the tube mesh of `rings`, each holding `ring_resolution` vertex
/// positions: first all vertices, ring after ring, then for every two
/// consecutive rings and every corner `i` the two triangles of `stitch_face`.
/// Every vertex gets the blank normal and texture coordinate.
pub fn extrude<P: Copy, U: Copy>(
    rings: &Vec<Vec<P>>,
    ring_resolution: usize,
    blank_normal: P,
    blank_uv: U,
) -> (mesh: MeshMap<P, U>)
    requires
        forall|w: int| 0 <= w < rings@.len() ==> (#[trigger] rings@[w])@.len() == ring_resolution,
        rings@.len() * ring_resolution < u32::MAX,
        2 * ring_resolution * rings@.len() < u32::MAX,
    ensures
        mesh.wf(),
        mesh.vertices_view().len() == rings@.len() * ring_resolution,
        forall|w: int, i: int|
            0 <= w < rings@.len() && 0 <= i < ring_resolution ==> mesh.vertices_view()[w
                * ring_resolution + i] == #[trigger] rings@[w]@[i],
        mesh.normals_view() == Seq::new(mesh.vertices_view().len(), |k: int| blank_normal),
        mesh.uvs_view() == Seq::new(mesh.vertices_view().len(), |k: int| blank_uv),
        mesh.faces_view().len() == stitch_count(rings@.len() as int, ring_resolution as int),
        forall|w: int, i: int|
            0 <= w < rings@.len() - 1 && 0 <= i < ring_resolution ==> #[trigger] stitched_at(mesh.faces_view(), ring_resolution as int, w, i),
{
    let r = ring_resolution;
    let n = rings.len();
    let mut mesh: MeshMap<P, U> = MeshMap::new(blank_normal, blank_uv);
    proof {
        mesh.lemma_wf();
        assert(mesh.normals_view() =~= Seq::new(0, |k: int| blank_normal));
        assert(mesh.uvs_view() =~= Seq::new(0, |k: int| blank_uv));
    }
    let mut w: usize = 0;
    while w < n
        invariant
            n == rings@.len(),
            r == ring_resolution,
            forall|q: int| 0 <= q < rings@.len() ==> (#[trigger] rings@[q])@.len() == r,
            n * r < u32::MAX,
            w <= n,
            mesh.wf(),
            mesh.faces_view().len() == 0,
            mesh.vertices_view().len() == w * r,
            mesh.blank_normal_spec() == blank_normal,
            mesh.blank_uv_spec() == blank_uv,
            mesh.normals_view() == Seq::new(mesh.vertices_view().len(), |k: int| blank_normal),
            mesh.uvs_view() == Seq::new(mesh.vertices_view().len(), |k: int| blank_uv),
            forall|w2: int, i2: int|
                0 <= w2 < w && 0 <= i2 < r ==> mesh.vertices_view()[w2 * r + i2]
                    == #[trigger] rings@[w2]@[i2],
        decreases n - w,
    {
        let ring = &rings[w];
        let mut i: usize = 0;
        while i < r
            invariant
                n == rings@.len(),
                r == ring_resolution,
                forall|q: int| 0 <= q < rings@.len() ==> (#[trigger] rings@[q])@.len() == r,
                n * r < u32::MAX,
                w < n,
                i <= r,
                ring@ == rings@[w as int]@,
                mesh.wf(),
                mesh.faces_view().len() == 0,
                mesh.vertices_view().len() == w * r + i,
                mesh.blank_normal_spec() == blank_normal,
                mesh.blank_uv_spec() == blank_uv,
                mesh.normals_view() == Seq::new(mesh.vertices_view().len(), |k: int| blank_normal),
                mesh.uvs_view() == Seq::new(mesh.vertices_view().len(), |k: int| blank_uv),
                forall|w2: int, i2: int|
                    0 <= w2 < w && 0 <= i2 < r ==> mesh.vertices_view()[w2 * r + i2]
                        == #[trigger] rings@[w2]@[i2],
                forall|i2: int| 0 <= i2 < i ==> mesh.vertices_view()[w * r + i2] == #[trigger] ring@[i2],
            decreases r - i,
        {
            proof {
                lemma_index_bound(w as int, i as int, r as int, n as int);
            }
            let ghost prev = mesh.vertices_view();
            mesh.add_vertex(ring[i]);
            proof {
                assert(mesh.normals_view() =~= Seq::new(mesh.vertices_view().len(), |k: int| blank_normal));
                assert(mesh.uvs_view() =~= Seq::new(mesh.vertices_view().len(), |k: int| blank_uv));
                assert forall|w2: int, i2: int|
                    0 <= w2 < w && 0 <= i2 < r implies mesh.vertices_view()[w2 * r + i2]
                        == #[trigger] rings@[w2]@[i2] by {
                    lemma_lex_lt(w2, i2, w as int, i as int, r as int);
                    lemma_index_bound(w2, i2, r as int, n as int);
                }
            }
            i = i + 1;
        }
        proof {
            lemma_mul_succ(w as int, r as int);
            assert forall|w2: int, i2: int|
                0 <= w2 < w + 1 && 0 <= i2 < r implies mesh.vertices_view()[w2 * r + i2]
                    == #[trigger] rings@[w2]@[i2] by {
                if w2 == w {
                    assert(ring@[i2] == rings@[w2]@[i2]);
                }
            }
        }
        w = w + 1;
    }
    proof {
        assert(mesh.vertices_view().len() == n * r);
    }
    if n == 0 {
        return mesh;
    }
    let mut w: usize = 0;
    while w < n - 1
        invariant
            n == rings@.len(),
            n > 0,
            r == ring_resolution,
            n * r < u32::MAX,
            2 * r * n < u32::MAX,
            w <= n - 1,
            mesh.wf(),
            mesh.vertices_view().len() == n * r,
            mesh.faces_view().len() == 2 * (w * r),
            mesh.normals_view() == Seq::new(mesh.vertices_view().len(), |k: int| blank_normal),
            mesh.uvs_view() == Seq::new(mesh.vertices_view().len(), |k: int| blank_uv),
            forall|w2: int, i2: int|
                0 <= w2 < n && 0 <= i2 < r ==> mesh.vertices_view()[w2 * r + i2]
                    == #[trigger] rings@[w2]@[i2],
            forall|w2: int, i2: int|
                0 <= w2 < w && 0 <= i2 < r ==> #[trigger] stitched_at(mesh.faces_view(), r as int, w2, i2),
        decreases n - 1 - w,
    {
        let mut i: usize = 0;
        proof {
            assert forall|w2: int, i2: int|
                ((0 <= w2 < w && 0 <= i2 < r) || (w2 == w && 0 <= i2 < i)) implies #[trigger] stitched_at(mesh.faces_view(), r as int, w2, i2) by {
                assert(0 <= w2 < w && 0 <= i2 < r);
            }
        }
        while i < r
            invariant
                n == rings@.len(),
                n > 0,
                r == ring_resolution,
                n * r < u32::MAX,
                2 * r * n < u32::MAX,
                w < n - 1,
                i <= r,
                mesh.wf(),
                mesh.vertices_view().len() == n * r,
                mesh.faces_view().len() == 2 * (w * r + i),
                mesh.normals_view() == Seq::new(mesh.vertices_view().len(), |k: int| blank_normal),
                mesh.uvs_view() == Seq::new(mesh.vertices_view().len(), |k: int| blank_uv),
                forall|w2: int, i2: int|
                    0 <= w2 < n && 0 <= i2 < r ==> mesh.vertices_view()[w2 * r + i2]
                        == #[trigger] rings@[w2]@[i2],
                forall|w2: int, i2: int|
                    ((0 <= w2 < w && 0 <= i2 < r) || (w2 == w && 0 <= i2 < i)) ==> #[trigger] stitched_at(mesh.faces_view(), r as int, w2, i2),
            decreases r - i,
        {
            proof {
                lemma_index_bound(w as int, i as int, r as int, n as int);
                lemma_index_bound((w + 1) as int, i as int, r as int, n as int);
                assert(2 * (w * r + i) + 2 <= 2 * r * n) by (nonlinear_arith)
                    requires
                        w + 1 < n,
                        i < r,
                ;
            }
            let j = (i + 1) % r;
            proof {
                lemma_index_bound((w + 1) as int, j as int, r as int, n as int);
            }
            let a = w * r;
            let b = (w + 1) * r;
            let ghost prev = mesh.faces_view();
            mesh.add_face([VertexId((a + i) as u32), VertexId((a + j) as u32), VertexId((b + i) as u32)]);
            mesh.add_face([VertexId((b + i) as u32), VertexId((a + j) as u32), VertexId((b + j) as u32)]);
            proof {
                let k = 2 * (w * r + i);
                assert(mesh.faces_view().len() == k + 2);
                assert(face_ids(mesh.faces_view()[k]) == stitch_face(r as int, w as int, i as int, false));
                assert(face_ids(mesh.faces_view()[k + 1]) == stitch_face(r as int, w as int, i as int, true));
                assert forall|w2: int, i2: int|
                    ((0 <= w2 < w && 0 <= i2 < r) || (w2 == w && 0 <= i2 < i + 1)) implies #[trigger] stitched_at(mesh.faces_view(), r as int, w2, i2) by {
                    if !(w2 == w && i2 == i) {
                        lemma_lex_lt(w2, i2, w as int, i as int, r as int);
                        assert(2 * (w2 * r + i2) + 1 < k);
                        assert(mesh.faces_view()[2 * (w2 * r + i2)] == prev[2 * (w2 * r + i2)]);
                        assert(mesh.faces_view()[2 * (w2 * r + i2) + 1] == prev[2 * (w2 * r + i2) + 1]);
                        assert(stitched_at(prev, r as int, w2, i2));
                    } else {
                        assert(2 * (w2 * r + i2) == k);
                    }
                }
            }
            i = i + 1;
        }
        proof {
            lemma_mul_succ(w as int, r as int);
            assert forall|w2: int, i2: int| 0 <= w2 < w + 1 && 0 <= i2 < r implies #[trigger] stitched_at(mesh.faces_view(), r as int, w2, i2) by {
                assert((0 <= w2 < w && 0 <= i2 < r) || (w2 == w && 0 <= i2 < i));
            }
        }
        w = w + 1;
    }
    proof {
        assert(2 * ((n - 1) * r) == 2 * r * (n - 1)) by (nonlinear_arith);
    }
    mesh
}

} // verus!
