use strawberry_gen::{extrude, FaceId, MeshMap, VertexId};

type Mesh = MeshMap<[f32; 3], [f32; 2]>;

#[test]
fn ids_are_dense_and_in_order() {
    let mut m: Mesh = MeshMap::new([0.0; 3], [0.0; 2]);
    let a = m.add_vertex([0.0, 0.0, 0.0]);
    let b = m.add_vertex([1.0, 0.0, 0.0]);
    let c = m.add_vertex([0.0, 1.0, 0.0]);
    assert_eq!((a, b, c), (VertexId(0), VertexId(1), VertexId(2)));
    let f = m.add_face([a, b, c]);
    assert_eq!(f, FaceId(0));
    assert_eq!(m.face_vertices(f), [a, b, c]);
    assert_eq!(m.vertex_iter(), vec![a, b, c]);
    assert_eq!(m.face_iter(), vec![f]);
    assert_eq!(VertexId::from(7), VertexId(7));
    assert_eq!(FaceId::from(4).index(), 4);
}

#[test]
fn face_positions_give_the_corners_in_order() {
    let mut m: Mesh = MeshMap::new([0.0; 3], [0.0; 2]);
    let a = m.add_vertex([0.0, 0.0, 0.0]);
    let b = m.add_vertex([1.0, 0.0, 0.0]);
    let c = m.add_vertex([0.0, 1.0, 0.0]);
    let f = m.add_face([c, a, b]);
    assert_eq!(m.face_positions(f), ([0.0, 1.0, 0.0], [0.0, 0.0, 0.0], [1.0, 0.0, 0.0]));
}

#[test]
fn new_vertex_has_blank_normal_and_uv() {
    let mut m: Mesh = MeshMap::new([0.0; 3], [0.0; 2]);
    let v = m.add_vertex([3.0, 2.0, 1.0]);
    assert_eq!(m.normal(v), [0.0; 3]);
    assert_eq!(m.uv(v), [0.0; 2]);
    m.set_normal(v, [0.0, 1.0, 0.0]);
    m.set_uv(v, [0.5, 0.25]);
    assert_eq!(m.normals(), &vec![[0.0, 1.0, 0.0]]);
    assert_eq!(m.uvs(), &vec![[0.5, 0.25]]);
    assert_eq!(m.positions(), &vec![[3.0, 2.0, 1.0]]);
}

#[test]
fn faces_with_vertex_and_isolated_vertex() {
    let mut m: Mesh = MeshMap::new([0.0; 3], [0.0; 2]);
    let v: Vec<VertexId> = (0..5).map(|i| m.add_vertex([i as f32, 0.0, 0.0])).collect();
    m.add_face([v[0], v[1], v[2]]);
    m.add_face([v[1], v[2], v[3]]);
    m.add_face([v[3], v[0], v[2]]);
    assert_eq!(m.faces_with_vertex(v[0]), vec![FaceId(0), FaceId(2)]);
    assert_eq!(m.faces_with_vertex(v[2]), vec![FaceId(0), FaceId(1), FaceId(2)]);
    assert!(m.faces_with_vertex(v[4]).is_empty());
    assert_eq!(m.triangle_indices(), vec![0, 1, 2, 1, 2, 3, 3, 0, 2]);
}

fn rings(count: usize, res: usize) -> Vec<Vec<[f32; 3]>> {
    (0..count)
        .map(|w| (0..res).map(|i| [i as f32, w as f32, 0.0]).collect())
        .collect()
}

#[test]
fn chain_of_three_stems_gives_eighteen_vertices_and_twenty_four_triangles() {
    let m = extrude(&rings(3, 6), 6, [0.0; 3], [0.0f32; 2]);
    assert_eq!(m.vertex_count(), 18);
    assert_eq!(m.face_count(), 24);
    assert_eq!(m.face_vertices(FaceId(0)), [VertexId(0), VertexId(1), VertexId(6)]);
    assert_eq!(m.face_vertices(FaceId(1)), [VertexId(6), VertexId(1), VertexId(7)]);
    // the last corner of a ring wraps round to the first
    assert_eq!(m.face_vertices(FaceId(10)), [VertexId(5), VertexId(0), VertexId(11)]);
    assert_eq!(m.face_vertices(FaceId(11)), [VertexId(11), VertexId(0), VertexId(6)]);
    assert_eq!(m.face_vertices(FaceId(12)), [VertexId(6), VertexId(7), VertexId(12)]);
    assert_eq!(m.vertex_position(VertexId(13)), [1.0, 2.0, 0.0]);
}

#[test]
fn fewer_than_two_rings_give_no_faces() {
    let m = extrude(&rings(1, 6), 6, [0.0; 3], [0.0f32; 2]);
    assert_eq!(m.vertex_count(), 6);
    assert_eq!(m.face_count(), 0);
    let e = extrude(&rings(0, 6), 6, [0.0; 3], [0.0f32; 2]);
    assert_eq!(e.vertex_count(), 0);
    assert_eq!(e.face_count(), 0);
}
