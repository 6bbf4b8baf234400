use snowmew::command::Batch;
use snowmew::geometry::{find_trig, to_triangles_adjacency, Geometry, Primative};
use snowmew::graphics::Drawable;

// A tetrahedron: every edge is shared by two faces.
const TETRA: [u32; 12] = [0, 1, 2, 0, 3, 1, 1, 3, 2, 2, 3, 0];

#[test]
fn find_trig_finds_opposite_vertex() {
    assert_eq!(find_trig(&TETRA, 0, 0, 1), 3);
    assert_eq!(find_trig(&TETRA, 0, 1, 2), 3);
    assert_eq!(find_trig(&TETRA, 1, 0, 3), 2);
}

#[test]
fn adjacency_of_tetrahedron() {
    let adj = to_triangles_adjacency(&TETRA);
    assert_eq!(adj.len(), 24);
    assert_eq!(&adj[0..6], &[0, 3, 1, 3, 2, 3]);
    assert_eq!(&adj[6..12], &[0, 2, 3, 2, 1, 2]);
}

#[test]
fn adjacency_of_empty_list() {
    assert_eq!(to_triangles_adjacency(&[]), Vec::<u32>::new());
}

#[test]
fn geometry_constructors() {
    let g = Geometry::triangles(4, 6, 9);
    assert_eq!((g.vb, g.offset, g.count, g.prim), (4, 6, 9, Primative::Triangle));
    assert_eq!(Geometry::lines(1, 2, 3).prim, Primative::Line);
    assert_eq!(Geometry::points(1, 2, 3).prim, Primative::Point);
    assert_eq!(Geometry::triangles_adjacency(1, 2, 3).prim, Primative::TriangleAdjacency);
    assert_eq!(Primative::default(), Primative::Point);
    assert_eq!(Geometry::default(), Geometry::points(0, 0, 0));
}

#[test]
fn drawables_order_by_geometry_then_material() {
    let mut v = vec![Drawable { geometry: 2, material: 1 }, Drawable { geometry: 1, material: 5 }, Drawable { geometry: 1, material: 2 }];
    v.sort();
    assert_eq!(v, vec![Drawable { geometry: 1, material: 2 }, Drawable { geometry: 1, material: 5 }, Drawable { geometry: 2, material: 1 }]);
}

#[test]
fn batch_accessors() {
    let b = Batch::new(7, 3, 5);
    assert_eq!(b.vbo(), 7);
    assert_eq!(b.offset_int(), 3);
    assert_eq!(b.drawcount(), 5);
}
