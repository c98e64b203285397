//! Indexed triangle mesh: dense vertex and face ids, per-vertex attributes kept
//! in parallel buffers, incidence queries and export.
use vstd::prelude::*;

verus! {

/// Dense, zero-based id of a vertex of a `MeshMap`.
#[derive(Clone, Copy, Debug, PartialEq, Eq, Structural, PartialOrd, Ord, Hash)]
pub struct VertexId(pub u32);

/// Dense, zero-based id of a face of a `MeshMap`.
#[derive(Clone, Copy, Debug, PartialEq, Eq, Structural, PartialOrd, Ord, Hash)]
pub struct FaceId(pub u32);

impl From<u32> for VertexId {
    fn from(id: u32) -> (r: VertexId) {
        VertexId(id)
    }
}

impl vstd::std_specs::convert::FromSpecImpl<u32> for VertexId {
    open spec fn obeys_from_spec() -> bool {
        true
    }

    open spec fn from_spec(v: u32) -> VertexId {
        VertexId(v)
    }
}

impl From<u32> for FaceId {
    fn from(id: u32) -> (r: FaceId) {
        FaceId(id)
    }
}

impl vstd::std_specs::convert::FromSpecImpl<u32> for FaceId {
    open spec fn obeys_from_spec() -> bool {
        true
    }

    open spec fn from_spec(v: u32) -> FaceId {
        FaceId(v)
    }
}

impl VertexId {
    pub fn index(&self) -> (r: u32)
        ensures
            r == self.0,
    {
        self.0
    }
}

impl FaceId {
    pub fn index(&self) -> (r: u32)
        ensures
            r == self.0,
    {
        self.0
    }
}

/// The three vertex ids of a face, as integers.
pub open spec fn face_ids(f: [VertexId; 3]) -> (int, int, int) {
    (f@[0].0 as int, f@[1].0 as int, f@[2].0 as int)
}

/// Face `f` has `v` as one of its corners.
pub open spec fn face_has(f: [VertexId; 3], v: int) -> bool {
    f@[0].0 == v || f@[1].0 == v || f@[2].0 == v
}

/// A triangle mesh with positions and normals of type `P` and texture
/// coordinates of type `U`. A new vertex gets the mesh's blank normal and blank
/// texture coordinate until they are set.
pub struct MeshMap<P, U> {
    vertices: Vec<P>,
    faces: Vec<[VertexId; 3]>,
    normals: Vec<P>,
    uvs: Vec<U>,
    blank_normal: P,
    blank_uv: U,
}

impl<P: Copy, U: Copy> MeshMap<P, U> {
    pub closed spec fn vertices_view(&self) -> Seq<P> {
        self.vertices@
    }

    pub closed spec fn faces_view(&self) -> Seq<[VertexId; 3]> {
        self.faces@
    }

    pub closed spec fn normals_view(&self) -> Seq<P> {
        self.normals@
    }

    pub closed spec fn uvs_view(&self) -> Seq<U> {
        self.uvs@
    }

    pub closed spec fn blank_normal_spec(&self) -> P {
        self.blank_normal
    }

    pub closed spec fn blank_uv_spec(&self) -> U {
        self.blank_uv
    }

    pub closed spec fn wf(&self) -> bool {
        &&& self.normals@.len() == self.vertices@.len()
        &&& self.uvs@.len() == self.vertices@.len()
        &&& self.vertices@.len() <= u32::MAX
        &&& self.faces@.len() <= u32::MAX
        &&& forall|f: int, t: int|
            0 <= f < self.faces@.len() && 0 <= t < 3 ==> (#[trigger] self.faces@[f]@[t]).0
                < self.vertices@.len()
    }

    /// The buffers run in parallel, and every face corner is a vertex of the mesh.
    pub proof fn lemma_wf(&self)
        requires
            self.wf(),
        ensures
            self.normals_view().len() == self.vertices_view().len(),
            self.uvs_view().len() == self.vertices_view().len(),
            self.vertices_view().len() <= u32::MAX,
            self.faces_view().len() <= u32::MAX,
            forall|f: int, t: int|
                0 <= f < self.faces_view().len() && 0 <= t < 3 ==> (
                #[trigger] self.faces_view()[f]@[t]).0 < self.vertices_view().len(),
    {
    }

    /// An empty mesh whose new vertices get `blank_normal` and `blank_uv`.
    pub fn new(blank_normal: P, blank_uv: U) -> (r: Self)
        ensures
            r.wf(),
            r.vertices_view().len() == 0,
            r.faces_view().len() == 0,
            r.blank_normal_spec() == blank_normal,
            r.blank_uv_spec() == blank_uv,
    {
        MeshMap {
            vertices: Vec::new(),
            faces: Vec::new(),
            normals: Vec::new(),
            uvs: Vec::new(),
            blank_normal,
            blank_uv,
        }
    }

    pub fn vertex_count(&self) -> (r: usize)
        ensures
            r == self.vertices_view().len(),
    {
        self.vertices.len()
    }

    pub fn face_count(&self) -> (r: usize)
        ensures
            r == self.faces_view().len(),
    {
        self.faces.len()
    }

    /// Appends a vertex with the blank normal and texture coordinate; returns its id.
    pub fn add_vertex(&mut self, vertex: P) -> (id: VertexId)
        requires
            old(self).wf(),
            old(self).vertices_view().len() < u32::MAX,
        ensures
            final(self).wf(),
            id.0 == old(self).vertices_view().len(),
            final(self).vertices_view() == old(self).vertices_view().push(vertex),
            final(self).normals_view() == old(self).normals_view().push(old(self).blank_normal_spec()),
            final(self).uvs_view() == old(self).uvs_view().push(old(self).blank_uv_spec()),
            final(self).faces_view() == old(self).faces_view(),
            final(self).blank_normal_spec() == old(self).blank_normal_spec(),
            final(self).blank_uv_spec() == old(self).blank_uv_spec(),
    {
        let index = self.vertices.len() as u32;
        self.vertices.push(vertex);
        self.normals.push(self.blank_normal);
        self.uvs.push(self.blank_uv);
        VertexId(index)
    }

    /// Appends a triangle over three vertices of the mesh; returns its id.
    pub fn add_face(&mut self, face: [VertexId; 3]) -> (id: FaceId)
        requires
            old(self).wf(),
            old(self).faces_view().len() < u32::MAX,
            forall|t: int| 0 <= t < 3 ==> (#[trigger] face@[t]).0 < old(self).vertices_view().len(),
        ensures
            final(self).wf(),
            id.0 == old(self).faces_view().len(),
            final(self).faces_view() == old(self).faces_view().push(face),
            final(self).vertices_view() == old(self).vertices_view(),
            final(self).normals_view() == old(self).normals_view(),
            final(self).uvs_view() == old(self).uvs_view(),
            final(self).blank_normal_spec() == old(self).blank_normal_spec(),
            final(self).blank_uv_spec() == old(self).blank_uv_spec(),
    {
        let index = self.faces.len() as u32;
        self.faces.push(face);
        FaceId(index)
    }

    /// The ids of all vertices, in order.
    pub fn vertex_iter(&self) -> (r: Vec<VertexId>)
        requires
            self.wf(),
        ensures
            r@.len() == self.vertices_view().len(),
            forall|i: int| 0 <= i < r@.len() ==> (#[trigger] r@[i]).0 == i,
    {
        let n = self.vertices.len();
        let mut r: Vec<VertexId> = Vec::new();
        let mut i: usize = 0;
        while i < n
            invariant
                n == self.vertices_view().len(),
                n <= u32::MAX,
                i <= n,
                r@.len() == i,
                forall|k: int| 0 <= k < r@.len() ==> (#[trigger] r@[k]).0 == k,
            decreases n - i,
        {
            r.push(VertexId(i as u32));
            i = i + 1;
        }
        r
    }

    /// The ids of all faces, in order.
    pub fn face_iter(&self) -> (r: Vec<FaceId>)
        requires
            self.wf(),
        ensures
            r@.len() == self.faces_view().len(),
            forall|i: int| 0 <= i < r@.len() ==> (#[trigger] r@[i]).0 == i,
    {
        let n = self.faces.len();
        let mut r: Vec<FaceId> = Vec::new();
        let mut i: usize = 0;
        while i < n
            invariant
                n == self.faces_view().len(),
                n <= u32::MAX,
                i <= n,
                r@.len() == i,
                forall|k: int| 0 <= k < r@.len() ==> (#[trigger] r@[k]).0 == k,
            decreases n - i,
        {
            r.push(FaceId(i as u32));
            i = i + 1;
        }
        r
    }

    pub fn vertex_position(&self, vertex: VertexId) -> (r: P)
        requires
            vertex.0 < self.vertices_view().len(),
        ensures
            r == self.vertices_view()[vertex.0 as int],
    {
        self.vertices[vertex.0 as usize]
    }

    pub fn face_vertices(&self, face: FaceId) -> (r: [VertexId; 3])
        requires
            face.0 < self.faces_view().len(),
        ensures
            r == self.faces_view()[face.0 as int],
    {
        self.faces[face.0 as usize]
    }

    /// Positions of the three corners of `face`.
    pub fn face_positions(&self, face: FaceId) -> (r: (P, P, P))
        requires
            self.wf(),
            face.0 < self.faces_view().len(),
        ensures
            r.0 == self.vertices_view()[face_ids(self.faces_view()[face.0 as int]).0],
            r.1 == self.vertices_view()[face_ids(self.faces_view()[face.0 as int]).1],
            r.2 == self.vertices_view()[face_ids(self.faces_view()[face.0 as int]).2],
    {
        let f = self.face_vertices(face);
        proof {
            assert(self.faces@[face.0 as int]@[0].0 < self.vertices@.len());
            assert(self.faces@[face.0 as int]@[1].0 < self.vertices@.len());
            assert(self.faces@[face.0 as int]@[2].0 < self.vertices@.len());
        }
        (self.vertex_position(f[0]), self.vertex_position(f[1]), self.vertex_position(f[2]))
    }

    /// The faces that have `vertex` as a corner, in increasing order. A vertex of
    /// no face gets an empty list.
    pub fn faces_with_vertex(&self, vertex: VertexId) -> (r: Vec<FaceId>)
        requires
            self.wf(),
        ensures
            forall|k: int|
                0 <= k < r@.len() ==> (#[trigger] r@[k]).0 < self.faces_view().len() && face_has(
                    self.faces_view()[r@[k].0 as int],
                    vertex.0 as int,
                ),
            forall|f: int|
                0 <= f < self.faces_view().len() && face_has(
                    #[trigger] self.faces_view()[f],
                    vertex.0 as int,
                ) ==> exists|k: int| 0 <= k < r@.len() && r@[k].0 == f,
            forall|a: int, b: int| 0 <= a < b < r@.len() ==> r@[a].0 < r@[b].0,
    {
        let n = self.faces.len();
        let mut r: Vec<FaceId> = Vec::new();
        let mut i: usize = 0;
        while i < n
            invariant
                n == self.faces_view().len(),
                n <= u32::MAX,
                i <= n,
                forall|k: int|
                    0 <= k < r@.len() ==> (#[trigger] r@[k]).0 < i && face_has(
                        self.faces_view()[r@[k].0 as int],
                        vertex.0 as int,
                    ),
                forall|f: int|
                    0 <= f < i && face_has(#[trigger] self.faces_view()[f], vertex.0 as int)
                        ==> exists|k: int| 0 <= k < r@.len() && r@[k].0 == f,
                forall|a: int, b: int| 0 <= a < b < r@.len() ==> r@[a].0 < r@[b].0,
            decreases n - i,
        {
            let f = self.faces[i];
            if f[0] == vertex || f[1] == vertex || f[2] == vertex {
                let ghost prev = r@;
                r.push(FaceId(i as u32));
                proof {
                    assert forall|g: int|
                        0 <= g < i + 1 && face_has(#[trigger] self.faces_view()[g], vertex.0 as int)
                            implies exists|k: int| 0 <= k < r@.len() && r@[k].0 == g by {
                        if g < i {
                            let k = choose|k: int| 0 <= k < prev.len() && prev[k].0 == g;
                            assert(r@[k].0 == g);
                        } else {
                            assert(r@[prev.len() as int].0 == g);
                        }
                    }
                }
            }
            i = i + 1;
        }
        r
    }

    pub fn normal(&self, vertex: VertexId) -> (r: P)
        requires
            self.wf(),
            vertex.0 < self.vertices_view().len(),
        ensures
            r == self.normals_view()[vertex.0 as int],
    {
        self.normals[vertex.0 as usize]
    }

    /// Overwrites the normal of `vertex`.
    pub fn set_normal(&mut self, vertex: VertexId, normal: P)
        requires
            old(self).wf(),
            vertex.0 < old(self).vertices_view().len(),
        ensures
            final(self).wf(),
            final(self).normals_view() == old(self).normals_view().update(vertex.0 as int, normal),
            final(self).vertices_view() == old(self).vertices_view(),
            final(self).faces_view() == old(self).faces_view(),
            final(self).uvs_view() == old(self).uvs_view(),
            final(self).blank_normal_spec() == old(self).blank_normal_spec(),
            final(self).blank_uv_spec() == old(self).blank_uv_spec(),
    {
        self.normals.set(vertex.0 as usize, normal);
    }

    pub fn uv(&self, vertex: VertexId) -> (r: U)
        requires
            self.wf(),
            vertex.0 < self.vertices_view().len(),
        ensures
            r == self.uvs_view()[vertex.0 as int],
    {
        self.uvs[vertex.0 as usize]
    }

    /// Overwrites the texture coordinate of `vertex`.
    pub fn set_uv(&mut self, vertex: VertexId, uv: U)
        requires
            old(self).wf(),
            vertex.0 < old(self).vertices_view().len(),
        ensures
            final(self).wf(),
            final(self).uvs_view() == old(self).uvs_view().update(vertex.0 as int, uv),
            final(self).vertices_view() == old(self).vertices_view(),
            final(self).faces_view() == old(self).faces_view(),
            final(self).normals_view() == old(self).normals_view(),
            final(self).blank_normal_spec() == old(self).blank_normal_spec(),
            final(self).blank_uv_spec() == old(self).blank_uv_spec(),
    {
        self.uvs.set(vertex.0 as usize, uv);
    }

    /// Vertex positions, by vertex id.
    pub fn positions(&self) -> (r: &Vec<P>)
        ensures
            r@ == self.vertices_view(),
    {
        &self.vertices
    }

    /// Vertex normals, by vertex id.
    pub fn normals(&self) -> (r: &Vec<P>)
        ensures
            r@ == self.normals_view(),
    {
        &self.normals
    }

    /// Texture coordinates, by vertex id.
    pub fn uvs(&self) -> (r: &Vec<U>)
        ensures
            r@ == self.uvs_view(),
    {
        &self.uvs
    }

    /// The triangle list: three vertex indices per face, faces in order.
    pub fn triangle_indices(&self) -> (r: Vec<u32>)
        requires
            self.wf(),
        ensures
            r@.len() == 3 * self.faces_view().len(),
            forall|f: int, t: int|
                0 <= f < self.faces_view().len() && 0 <= t < 3 ==> r@[3 * f + t] == (
                #[trigger] self.faces_view()[f]@[t]).0,
    {
        let n = self.faces.len();
        let mut r: Vec<u32> = Vec::new();
        let mut i: usize = 0;
        while i < n
            invariant
                n == self.faces_view().len(),
                n <= u32::MAX,
                i <= n,
                r@.len() == 3 * i,
                forall|f: int, t: int|
                    0 <= f < i && 0 <= t < 3 ==> r@[3 * f + t] == (
                    #[trigger] self.faces_view()[f]@[t]).0,
            decreases n - i,
        {
            let f = self.faces[i];
            r.push(f[0].0);
            r.push(f[1].0);
            r.push(f[2].0);
            proof {
                assert forall|g: int, t: int|
                    0 <= g < i + 1 && 0 <= t < 3 implies r@[3 * g + t] == (
                    #[trigger] self.faces_view()[g]@[t]).0 by {
                    if g == i {
                        assert(t == 0 || t == 1 || t == 2);
                    }
                }
            }
            i = i + 1;
        }
        r
    }
}

} // verus!
