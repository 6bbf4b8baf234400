//! Geometry records and the triangle-adjacency index builder.
use vstd::prelude::*;

use crate::Entity;

verus! {

/// How the indices of a geometry are assembled.
#[derive(Clone, Copy, Debug, PartialEq, Eq, Structural)]
pub enum Primative {
    Point,
    Line,
    Triangle,
    TriangleAdjacency,
}

impl Default for Primative {
    fn default() -> (r: Primative)
        ensures
            r == Primative::Point,
    {
        Primative::Point
    }
}

/// A range of a vertex buffer's indices, drawn as one kind of primitive.
#[derive(Clone, Copy, Debug, PartialEq, Eq, Structural)]
pub struct Geometry {
    /// The vertex buffer the indices belong to.
    pub vb: Entity,
    /// The number of index elements.
    pub count: usize,
    /// The offset into the index buffer.
    pub offset: usize,
    pub prim: Primative,
}

impl Default for Geometry {
    fn default() -> (r: Geometry)
        ensures
            r == (Geometry { vb: 0, count: 0, offset: 0, prim: Primative::Point }),
    {
        Geometry { vb: 0, count: 0, offset: 0, prim: Primative::Point }
    }
}

impl Geometry {
    pub fn triangles(vb: Entity, offset: usize, count: usize) -> (r: Geometry)
        ensures
            r == (Geometry { vb, count, offset, prim: Primative::Triangle }),
    {
        Geometry { vb, count, offset, prim: Primative::Triangle }
    }

    pub fn triangles_adjacency(vb: Entity, offset: usize, count: usize) -> (r: Geometry)
        ensures
            r == (Geometry { vb, count, offset, prim: Primative::TriangleAdjacency }),
    {
        Geometry { vb, count, offset, prim: Primative::TriangleAdjacency }
    }

    pub fn lines(vb: Entity, offset: usize, count: usize) -> (r: Geometry)
        ensures
            r == (Geometry { vb, count, offset, prim: Primative::Line }),
    {
        Geometry { vb, count, offset, prim: Primative::Line }
    }

    pub fn points(vb: Entity, offset: usize, count: usize) -> (r: Geometry)
        ensures
            r == (Geometry { vb, count, offset, prim: Primative::Point }),
    {
        Geometry { vb, count, offset, prim: Primative::Point }
    }
}

/// The number of whole triangles in an index list.
pub open spec fn tri_count(index: Seq<u32>) -> int {
    index.len() as int / 3
}

/// Corner `j` of triangle `i`.
pub open spec fn corner(index: Seq<u32>, i: int, j: int) -> u32 {
    index[3 * i + j]
}

/// The last corner of triangle `i` that holds `v`, or `-1`.
pub open spec fn last_corner(index: Seq<u32>, i: int, v: u32) -> int {
    if corner(index, i, 2) == v {
        2
    } else if corner(index, i, 1) == v {
        1
    } else if corner(index, i, 0) == v {
        0
    } else {
        -1
    }
}

/// The last of the first `j` corners of triangle `i` that holds `v`, or `3`.
spec fn corner_seen(index: Seq<u32>, i: int, v: u32, j: int) -> int {
    if j > 2 && corner(index, i, 2) == v {
        2
    } else if j > 1 && corner(index, i, 1) == v {
        1
    } else if j > 0 && corner(index, i, 0) == v {
        0
    } else {
        3
    }
}

/// Whether triangle `i`, other than `my_idx`, holds both `a` and `b`.
pub open spec fn shares_edge(index: Seq<u32>, i: int, my_idx: int, a: u32, b: u32) -> bool {
    &&& i != my_idx
    &&& last_corner(index, i, a) != -1
    &&& last_corner(index, i, b) != -1
}

/// The first triangle from `i` on that shares the edge `a`-`b`, or `-1`.
pub open spec fn first_sharing(index: Seq<u32>, my_idx: int, a: u32, b: u32, i: int) -> int
    decreases tri_count(index) - i,
{
    if i >= tri_count(index) {
        -1
    } else if shares_edge(index, i, my_idx, a, b) {
        i
    } else {
        first_sharing(index, my_idx, a, b, i + 1)
    }
}

proof fn lemma_first_sharing_range(index: Seq<u32>, my_idx: int, a: u32, b: u32, i: int)
    ensures
        first_sharing(index, my_idx, a, b, i) == -1 || first_sharing(index, my_idx, a, b, i) >= i,
        first_sharing(index, my_idx, a, b, i) < tri_count(index),
    decreases tri_count(index) - i,
{
    if i < tri_count(index) && !shares_edge(index, i, my_idx, a, b) {
        lemma_first_sharing_range(index, my_idx, a, b, i + 1);
    }
}

/// The first corner of triangle `i` that is neither the last corner
/// holding `a` nor the last corner holding `b`.
pub open spec fn third_corner(index: Seq<u32>, i: int, a: u32, b: u32) -> u32 {
    let fa = last_corner(index, i, a);
    let fb = last_corner(index, i, b);
    if fa != 0 && fb != 0 {
        corner(index, i, 0)
    } else if fa != 1 && fb != 1 {
        corner(index, i, 1)
    } else {
        corner(index, i, 2)
    }
}

/// Whether some triangle other than `my_idx` shares the edge `a`-`b`.
pub open spec fn has_neighbor(index: Seq<u32>, my_idx: int, a: u32, b: u32) -> bool {
    first_sharing(index, my_idx, a, b, 0) >= 0
}

/// The vertex across the edge `a`-`b` of triangle `my_idx`: the third
/// corner of the first other triangle that shares that edge.
pub open spec fn neighbor(index: Seq<u32>, my_idx: int, a: u32, b: u32) -> u32 {
    third_corner(index, first_sharing(index, my_idx, a, b, 0), a, b)
}

/// Whether every edge of every triangle is shared with another triangle.
pub open spec fn edges_shared(index: Seq<u32>) -> bool {
    forall|i: int| 0 <= i < tri_count(index) ==> {
        &&& #[trigger] has_neighbor(index, i, corner(index, i, 0), corner(index, i, 1))
        &&& has_neighbor(index, i, corner(index, i, 1), corner(index, i, 2))
        &&& has_neighbor(index, i, corner(index, i, 2), corner(index, i, 0))
    }
}

/// Element `k` of the adjacency list: for each triangle its corners, each
/// followed by the vertex across the edge to the next corner.
pub open spec fn adjacency_at(index: Seq<u32>, k: int) -> u32 {
    let i = k / 6;
    let j = k % 6;
    if j % 2 == 0 {
        corner(index, i, j / 2)
    } else {
        neighbor(index, i, corner(index, i, j / 2), corner(index, i, (j / 2 + 1) % 3))
    }
}

/// The adjacency list of an index list of triangles.
pub open spec fn adjacency(index: Seq<u32>) -> Seq<u32> {
    Seq::new((6 * tri_count(index)) as nat, |k: int| adjacency_at(index, k))
}

/// The vertex across the edge `a`-`b` of triangle `my_idx`.
pub fn find_trig(index: &[u32], my_idx: usize, a: u32, b: u32) -> (r: u32)
    requires
        has_neighbor(index@, my_idx as int, a, b),
    ensures
        r == neighbor(index@, my_idx as int, a, b),
{
    let len = index.len();
    let n = len / 3;
    let mut i: usize = 0;
    while i < n
        invariant
            n == tri_count(index@),
            len == index@.len(),
            n == len / 3,
            i <= n,
            first_sharing(index@, my_idx as int, a, b, i as int) == first_sharing(
                index@,
                my_idx as int,
                a,
                b,
                0,
            ),
            first_sharing(index@, my_idx as int, a, b, 0) >= i,
        decreases n - i,
    {
        assert(3 * i + 3 <= len) by (nonlinear_arith)
            requires
                i < n,
                n == len / 3,
        ;
        if i != my_idx {
            let mut found_a: usize = 3;
            let mut found_b: usize = 3;
            let mut j: usize = 0;
            while j < 3
                invariant
                    i < n,
                    n == tri_count(index@),
                    3 * i + 3 <= len,
                    len == index@.len(),
                    j <= 3,
                    found_a as int == corner_seen(index@, i as int, a, j as int),
                    found_b as int == corner_seen(index@, i as int, b, j as int),
                decreases 3 - j,
            {
                if a == index[i * 3 + j] {
                    found_a = j;
                }
                if b == index[i * 3 + j] {
                    found_b = j;
                }
                j = j + 1;
            }
            assert(found_a == 3 <==> last_corner(index@, i as int, a) == -1);
            assert(found_b == 3 <==> last_corner(index@, i as int, b) == -1);
            if found_a != 3 && found_b != 3 {
                let mut k: usize = 0;
                while k < 3
                    invariant
                        i < n,
                        n == tri_count(index@),
                        3 * i + 3 <= len,
                    len == index@.len(),
                        k <= 3,
                        found_a < 3,
                        found_b < 3,
                        k > 0 ==> found_a == 0 || found_b == 0,
                        k > 1 ==> found_a == 1 || found_b == 1,
                        k > 2 ==> found_a == 2 || found_b == 2,
                        first_sharing(index@, my_idx as int, a, b, 0) == i,
                        found_a as int == last_corner(index@, i as int, a),
                        found_b as int == last_corner(index@, i as int, b),
                    decreases 3 - k,
                {
                    if k != found_a && k != found_b {
                        return index[i * 3 + k];
                    }
                    k = k + 1;
                }
            }
        }
        proof {
            lemma_first_sharing_range(index@, my_idx as int, a, b, i + 1);
        }
        i = i + 1;
    }
    0
}

/// The adjacency index of a triangle list: each corner followed by the
/// vertex across the edge to the next corner.
pub fn to_triangles_adjacency(index: &[u32]) -> (r: Vec<u32>)
    requires
        edges_shared(index@),
    ensures
        r@ == adjacency(index@),
{
    let len = index.len();
    let n = len / 3;
    let mut out: Vec<u32> = Vec::new();
    let mut i: usize = 0;
    while i < n
        invariant
            n == tri_count(index@),
            len == index@.len(),
            n == len / 3,
            i <= n,
            edges_shared(index@),
            out@.len() == 6 * i,
            forall|k: int| 0 <= k < out@.len() ==> out@[k] == adjacency_at(index@, k),
        decreases n - i,
    {
        assert(3 * i + 3 <= len) by (nonlinear_arith)
            requires
                i < n,
                n == len / 3,
        ;
        let a = index[i * 3];
        let b = index[i * 3 + 1];
        let c = index[i * 3 + 2];
        assert(has_neighbor(index@, i as int, corner(index@, i as int, 0), corner(index@, i as int, 1)));
        out.push(a);
        out.push(find_trig(index, i, a, b));
        out.push(b);
        out.push(find_trig(index, i, b, c));
        out.push(c);
        out.push(find_trig(index, i, c, a));
        assert forall|k: int| 6 * i <= k < 6 * i + 6 implies out@[k] == adjacency_at(index@, k) by {
            assert(k / 6 == i);
        }
        i = i + 1;
    }
    assert(out@ =~= adjacency(index@));
    out
}

} // verus!
