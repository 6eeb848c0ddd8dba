use swarm::mesh::{strip_indices, validate_mesh, MeshError};

#[test]
fn validate_rejects_what_a_collider_cannot_build() {
    // An empty mesh.
    assert_eq!(validate_mesh(&[], 0, None), Err(MeshError::Empty));

    // Three vertices, one sound triangle.
    let sound = [0u32, 1, 2];
    assert_eq!(validate_mesh(&sound, 3, None), Ok(()));

    // Vertex 1 made non-finite.
    assert_eq!(
        validate_mesh(&sound, 3, Some(1)),
        Err(MeshError::NonFiniteVertex(1))
    );

    // An index past the end.
    assert_eq!(
        validate_mesh(&[0, 1, 7], 3, None),
        Err(MeshError::IndexOutOfRange(0, 7, 3))
    );

    // A repeated vertex.
    assert_eq!(
        validate_mesh(&[0, 1, 1], 3, None),
        Err(MeshError::DegenerateTriangle(0))
    );
}

#[test]
fn one_straight_lane_tessellates_to_two_quads() {
    // 3 ribs x 2 vertices; 2 segments x 2 triangles x 3 indices.
    let indices = strip_indices(&[3]);
    assert_eq!(indices.len(), 12);
    assert_eq!(indices, vec![0, 1, 3, 0, 3, 2, 2, 3, 5, 2, 5, 4]);
    // The strips index exactly the six rib vertices: all six are needed.
    assert_eq!(*indices.iter().max().unwrap(), 5);
    assert_eq!(validate_mesh(&indices, 6, None), Ok(()));
    assert_eq!(
        validate_mesh(&indices, 5, None),
        Err(MeshError::IndexOutOfRange(2, 5, 5))
    );
}

#[test]
fn lanes_follow_one_another_in_the_vertex_list() {
    let indices = strip_indices(&[2, 3]);
    assert_eq!(
        indices,
        vec![0, 1, 3, 0, 3, 2, 4, 5, 7, 4, 7, 6, 6, 7, 9, 6, 9, 8]
    );
    assert_eq!(validate_mesh(&indices, 10, None), Ok(()));
}

#[test]
fn a_single_point_lane_adds_no_triangles() {
    assert!(strip_indices(&[1]).is_empty());
    assert_eq!(strip_indices(&[1, 2]), vec![2, 3, 5, 2, 5, 4]);
    assert_eq!(validate_mesh(&strip_indices(&[1]), 2, None), Err(MeshError::Empty));
}

#[test]
fn the_first_faulty_triangle_is_reported() {
    // Triangle 0 is fine, triangle 1 repeats a vertex, triangle 2 is out of
    // range: the earlier one wins.
    assert_eq!(
        validate_mesh(&[0, 1, 2, 2, 2, 0, 9, 0, 1], 3, None),
        Err(MeshError::DegenerateTriangle(1))
    );
    // Within one triangle, an out-of-range index is reported before a
    // repeat, and the first offending index is named.
    assert_eq!(
        validate_mesh(&[5, 5, 8], 3, None),
        Err(MeshError::IndexOutOfRange(0, 5, 3))
    );
    assert_eq!(
        validate_mesh(&[0, 4, 8], 3, None),
        Err(MeshError::IndexOutOfRange(0, 4, 3))
    );
}

#[test]
fn a_trailing_partial_triangle_is_ignored() {
    assert_eq!(validate_mesh(&[0, 1, 2, 9], 3, None), Ok(()));
}

#[test]
fn fewer_than_three_indices_is_no_triangle() {
    assert_eq!(validate_mesh(&[0, 1], 3, None), Err(MeshError::Empty));
    assert_eq!(validate_mesh(&[9], 3, Some(0)), Err(MeshError::Empty));
}

#[test]
fn a_non_finite_vertex_is_reported_before_bad_triangles() {
    assert_eq!(
        validate_mesh(&[0, 0, 0], 1, Some(0)),
        Err(MeshError::NonFiniteVertex(0))
    );
}
