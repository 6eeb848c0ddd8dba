//! The triangle topology of the road surface mesh: the index strips a lane
//! set tessellates into, and the check that a mesh can back a physics
//! trimesh collider.

use vstd::prelude::*;

verus! {

/// Why a mesh cannot be turned into a physics trimesh.
#[derive(Debug, Clone, Copy, PartialEq, Eq, Structural)]
pub enum MeshError {
    /// The mesh has no triangles.
    Empty,
    /// This vertex is not finite.
    NonFiniteVertex(usize),
    /// This triangle indexes this vertex, past the given number of vertices.
    IndexOutOfRange(usize, u32, usize),
    /// This triangle repeats a vertex.
    DegenerateTriangle(usize),
}

/// What is wrong with triangle `t` (indices `3t`, `3t + 1`, `3t + 2`): the
/// first of its indices that is past the `vertex_count` vertices, else a
/// repeated vertex, else nothing.
pub open spec fn triangle_fault(indices: Seq<u32>, vertex_count: usize, t: int) -> Option<MeshError> {
    let a = indices[3 * t];
    let b = indices[3 * t + 1];
    let c = indices[3 * t + 2];
    if a >= vertex_count {
        Some(MeshError::IndexOutOfRange(t as usize, a, vertex_count))
    } else if b >= vertex_count {
        Some(MeshError::IndexOutOfRange(t as usize, b, vertex_count))
    } else if c >= vertex_count {
        Some(MeshError::IndexOutOfRange(t as usize, c, vertex_count))
    } else if a == b || b == c || a == c {
        Some(MeshError::DegenerateTriangle(t as usize))
    } else {
        None
    }
}

/// The fault of the first faulty triangle among the first `n`.
pub open spec fn first_fault(indices: Seq<u32>, vertex_count: usize, n: int) -> Option<MeshError>
    decreases n,
{
    if n <= 0 {
        None
    } else {
        match first_fault(indices, vertex_count, n - 1) {
            Some(e) => Some(e),
            None => triangle_fault(indices, vertex_count, n - 1),
        }
    }
}

/// Whether a mesh of `vertex_count` vertices, the first non-finite one at
/// `first_non_finite` (if any), and these triangle indices can back a
/// collider: it needs at least one complete triangle (fewer than three
/// indices is `Empty`), finite vertices, and triangles (whole groups of
/// three; a trailing partial group is ignored) that index existing vertices
/// and repeat none. The first problem found is the answer.
pub open spec fn mesh_check(indices: Seq<u32>, vertex_count: usize, first_non_finite: Option<usize>) -> Result<(), MeshError> {
    if indices.len() < 3 {
        Err(MeshError::Empty)
    } else {
        match first_non_finite {
            Some(i) => Err(MeshError::NonFiniteVertex(i)),
            None => match first_fault(indices, vertex_count, (indices.len() / 3) as int) {
                Some(e) => Err(e),
                None => Ok(()),
            },
        }
    }
}

/// Check that a mesh can back a physics collider (see `mesh_check`).
/// `first_non_finite` is the position of the first vertex with a non-finite
/// coordinate, if any.
pub fn validate_mesh(indices: &[u32], vertex_count: usize, first_non_finite: Option<usize>) -> (r: Result<(), MeshError>)
    ensures
        r == mesh_check(indices@, vertex_count, first_non_finite),
        r is Ok ==> first_non_finite is None && indices@.len() >= 3 && forall|t: int|
            0 <= t < indices@.len() / 3 ==> {
                let a = #[trigger] indices@[3 * t];
                let b = indices@[3 * t + 1];
                let c = indices@[3 * t + 2];
                a < vertex_count && b < vertex_count && c < vertex_count && a != b && b != c && a != c
            },
{
    if indices.len() < 3 {
        return Err(MeshError::Empty);
    }
    match first_non_finite {
        Some(i) => {
            return Err(MeshError::NonFiniteVertex(i));
        },
        None => {},
    }
    let len = indices.len();
    let count = len / 3;
    let mut t: usize = 0;
    while t < count
        invariant
            len == indices@.len(),
            count == indices@.len() / 3,
            indices@.len() >= 3,
            first_non_finite is None,
            t <= count,
            first_fault(indices@, vertex_count, t as int) is None,
        decreases count - t,
    {
        assert(3 * t + 2 < indices@.len()) by (nonlinear_arith)
            requires
                t < count,
                count == indices@.len() / 3,
        ;
        let a = indices[3 * t];
        let b = indices[3 * t + 1];
        let c = indices[3 * t + 2];
        let fault = if a as usize >= vertex_count {
            Some(MeshError::IndexOutOfRange(t, a, vertex_count))
        } else if b as usize >= vertex_count {
            Some(MeshError::IndexOutOfRange(t, b, vertex_count))
        } else if c as usize >= vertex_count {
            Some(MeshError::IndexOutOfRange(t, c, vertex_count))
        } else if a == b || b == c || a == c {
            Some(MeshError::DegenerateTriangle(t))
        } else {
            None
        };
        assert(fault == triangle_fault(indices@, vertex_count, t as int));
        match fault {
            Some(e) => {
                proof {
                    lemma_fault_persists(indices@, vertex_count, t as int, count as int);
                }
                return Err(e);
            },
            None => {},
        }
        t = t + 1;
    }
    proof {
        assert(t == count);
        assert(first_fault(indices@, vertex_count, count as int) is None);
        lemma_no_fault_below(indices@, vertex_count, count as int);
        assert forall|k: int| 0 <= k < indices@.len() / 3 implies {
            let a = #[trigger] indices@[3 * k];
            let b = indices@[3 * k + 1];
            let c = indices@[3 * k + 2];
            a < vertex_count && b < vertex_count && c < vertex_count && a != b && b != c && a != c
        } by {
            assert(indices@[3 * k] == indices@[3 * k]);
        }
    }
    Ok(())
}

/// Once a triangle is the first faulty one, it stays the first faulty one.
proof fn lemma_fault_persists(indices: Seq<u32>, vertex_count: usize, t: int, n: int)
    requires
        0 <= t < n,
        first_fault(indices, vertex_count, t) is None,
        triangle_fault(indices, vertex_count, t) is Some,
    ensures
        first_fault(indices, vertex_count, n) == triangle_fault(indices, vertex_count, t),
    decreases n,
{
    if n > t + 1 {
        lemma_fault_persists(indices, vertex_count, t, n - 1);
    }
}

/// The two triangles of one quad between the rib pair starting at vertex
/// `l0` (left `l0`, right `l0 + 1`) and the next (left `l0 + 2`, right
/// `l0 + 3`), wound to face up.
pub open spec fn quad(l0: int) -> Seq<u32> {
    seq![l0 as u32, (l0 + 1) as u32, (l0 + 3) as u32, l0 as u32, (l0 + 3) as u32, (l0 + 2) as u32]
}

/// The triangles of one lane of `n` centerline points whose `2n` rib
/// vertices start at `base`: one quad per segment.
pub open spec fn lane_strip(base: int, n: int) -> Seq<u32>
    decreases n,
{
    if n <= 1 {
        seq![]
    } else {
        lane_strip(base, n - 1) + quad(base + 2 * (n - 2))
    }
}

/// The number of centerline points over all lanes.
pub open spec fn total_points(counts: Seq<usize>) -> int
    decreases counts.len(),
{
    if counts.len() == 0 {
        0
    } else {
        total_points(counts.drop_last()) + counts.last()
    }
}

/// The triangles of lanes with `counts` centerline points each, their
/// vertices laid out lane after lane, two per point.
pub open spec fn strips(counts: Seq<usize>) -> Seq<u32>
    decreases counts.len(),
{
    if counts.len() == 0 {
        seq![]
    } else {
        strips(counts.drop_last()) + lane_strip(2 * total_points(counts.drop_last()), counts.last() as int)
    }
}

proof fn lemma_total_points_monotone(counts: Seq<usize>, k: int)
    requires
        0 <= k <= counts.len(),
    ensures
        total_points(counts.take(k)) <= total_points(counts),
        total_points(counts.take(k)) >= 0,
    decreases counts.len(),
{
    if counts.len() > 0 {
        if k == counts.len() {
            assert(counts.take(k) =~= counts);
            lemma_total_points_monotone(counts.drop_last(), k - 1);
            assert(counts.drop_last().take(k - 1) =~= counts.drop_last());
        } else {
            lemma_total_points_monotone(counts.drop_last(), k);
            assert(counts.drop_last().take(k) =~= counts.take(k));
        }
    }
}

/// The triangle index list of a surface mesh over lanes with `counts`
/// centerline points each (every lane at least one point): each lane's two
/// rib vertices per point follow the previous lane's, and each of its
/// segments is one quad of two up-facing triangles.
pub fn strip_indices(counts: &[usize]) -> (r: Vec<u32>)
    requires
        forall|k: int| 0 <= k < counts@.len() ==> counts@[k] >= 1,
        2 * total_points(counts@) <= u32::MAX,
    ensures
        r@ == strips(counts@),
{
    let mut out: Vec<u32> = Vec::new();
    let mut base: u32 = 0;
    let mut k: usize = 0;
    while k < counts.len()
        invariant
            k <= counts@.len(),
            forall|m: int| 0 <= m < counts@.len() ==> counts@[m] >= 1,
            2 * total_points(counts@) <= u32::MAX,
            base == 2 * total_points(counts@.take(k as int)),
            out@ == strips(counts@.take(k as int)),
        decreases counts@.len() - k,
    {
        let n = counts[k];
        proof {
            assert(counts@.take(k + 1).drop_last() =~= counts@.take(k as int));
            lemma_total_points_monotone(counts@, k + 1);
        }
        assert(2 * total_points(counts@.take(k + 1)) == base + 2 * n);
        let ghost before = out@;
        let mut i: u32 = 0;
        while (i as usize) + 1 < n
            invariant
                n == counts@[k as int],
                n >= 1,
                base + 2 * n <= u32::MAX,
                (i as usize) + 1 <= n,
                out@ == before + lane_strip(base as int, i + 1),
            decreases n - i,
        {
            let l0 = base + 2 * i;
            out.push(l0);
            out.push(l0 + 1);
            out.push(l0 + 3);
            out.push(l0);
            out.push(l0 + 3);
            out.push(l0 + 2);
            assert(out@ =~= before + lane_strip(base as int, i + 2));
            i = i + 1;
        }
        assert(out@ == strips(counts@.take(k + 1)));
        base = base + 2 * (n as u32);
        k = k + 1;
    }
    assert(counts@.take(k as int) =~= counts@);
    out
}

/// Every triangle of `s` (whole groups of three) uses three distinct
/// vertices in `[lo, hi)`.
pub open spec fn triangles_within(s: Seq<u32>, lo: int, hi: int) -> bool {
    &&& s.len() % 3 == 0
    &&& forall|t: int|
        0 <= t < s.len() / 3 ==> {
            let a = #[trigger] s[3 * t];
            let b = s[3 * t + 1];
            let c = s[3 * t + 2];
            lo <= a < hi && lo <= b < hi && lo <= c < hi && a != b && b != c && a != c
        }
}

proof fn lemma_concat_within(x: Seq<u32>, y: Seq<u32>, lo: int, mid: int, hi: int)
    requires
        triangles_within(x, lo, mid),
        triangles_within(y, lo, hi),
        mid <= hi,
    ensures
        triangles_within(x + y, lo, hi),
{
    let s = x + y;
    assert forall|t: int| 0 <= t < s.len() / 3 implies {
        let a = #[trigger] s[3 * t];
        let b = s[3 * t + 1];
        let c = s[3 * t + 2];
        lo <= a < hi && lo <= b < hi && lo <= c < hi && a != b && b != c && a != c
    } by {
        let tx = x.len() / 3;
        if t < tx {
            assert(s[3 * t] == x[3 * t]);
            assert(s[3 * t + 1] == x[3 * t + 1]);
            assert(s[3 * t + 2] == x[3 * t + 2]);
        } else {
            let u = t - tx;
            assert(0 <= u < y.len() / 3);
            assert(s[3 * t] == y[3 * u]);
            assert(s[3 * t + 1] == y[3 * u + 1]);
            assert(s[3 * t + 2] == y[3 * u + 2]);
            assert(y[3 * u] == y[3 * u]);
        }
    }
}

proof fn lemma_lane_strip_within(base: int, n: int)
    requires
        base >= 0,
        n >= 1,
        base + 2 * n <= u32::MAX,
    ensures
        triangles_within(lane_strip(base, n), base, base + 2 * n),
        lane_strip(base, n).len() == 6 * (n - 1),
    decreases n,
{
    if n == 1 {
        assert(lane_strip(base, n) =~= Seq::<u32>::empty());
    } else {
        lemma_lane_strip_within(base, n - 1);
        let l0 = base + 2 * (n - 2);
        let q = quad(l0);
        assert(triangles_within(q, base, base + 2 * n)) by {
            assert forall|t: int| 0 <= t < q.len() / 3 implies {
                let a = #[trigger] q[3 * t];
                let b = q[3 * t + 1];
                let c = q[3 * t + 2];
                base <= a < base + 2 * n && base <= b < base + 2 * n && base <= c < base + 2 * n && a != b && b != c
                    && a != c
            } by {
                assert(t == 0 || t == 1);
            }
        }
        lemma_concat_within(lane_strip(base, n - 1), q, base, base + 2 * (n - 1), base + 2 * n);
    }
}

proof fn lemma_strips_within(counts: Seq<usize>)
    requires
        forall|k: int| 0 <= k < counts.len() ==> counts[k] >= 1,
        2 * total_points(counts) <= u32::MAX,
    ensures
        triangles_within(strips(counts), 0, 2 * total_points(counts)),
        total_points(counts) >= 0,
    decreases counts.len(),
{
    if counts.len() > 0 {
        let init = counts.drop_last();
        lemma_total_points_monotone(counts, counts.len() - 1);
        assert(counts.take(counts.len() - 1) =~= init);
        lemma_strips_within(init);
        let base = 2 * total_points(init);
        lemma_lane_strip_within(base, counts.last() as int);
        let strip = lane_strip(base, counts.last() as int);
        assert(triangles_within(strip, 0, 2 * total_points(counts))) by {
            assert forall|t: int| 0 <= t < strip.len() / 3 implies {
                let a = #[trigger] strip[3 * t];
                let b = strip[3 * t + 1];
                let c = strip[3 * t + 2];
                0 <= a < 2 * total_points(counts) && 0 <= b < 2 * total_points(counts) && 0 <= c < 2
                    * total_points(counts) && a != b && b != c && a != c
            } by {
                assert(strip[3 * t] == strip[3 * t]);
            }
        }
        lemma_concat_within(strips(init), strip, 0, base, 2 * total_points(counts));
    }
}

proof fn lemma_no_fault(s: Seq<u32>, vertex_count: usize, n: int)
    requires
        triangles_within(s, 0, vertex_count as int),
        0 <= n <= s.len() / 3,
    ensures
        first_fault(s, vertex_count, n) is None,
    decreases n,
{
    if n > 0 {
        lemma_no_fault(s, vertex_count, n - 1);
        assert(s[3 * (n - 1)] == s[3 * (n - 1)]);
    }
}

/// A lane set tessellates into a valid trimesh: for lanes of at least one
/// centerline point each, at least one of them with a segment, the strip
/// indices over their `2 * total` rib vertices (all finite) pass the
/// collider check.
pub proof fn lemma_strips_are_valid(counts: Seq<usize>)
    requires
        forall|k: int| 0 <= k < counts.len() ==> counts[k] >= 1,
        exists|k: int| 0 <= k < counts.len() && counts[k] >= 2,
        2 * total_points(counts) <= u32::MAX,
    ensures
        mesh_check(strips(counts), (2 * total_points(counts)) as usize, None) == Ok::<(), MeshError>(()),
{
    lemma_strips_within(counts);
    lemma_no_fault(strips(counts), (2 * total_points(counts)) as usize, (strips(counts).len() / 3) as int);
    lemma_strips_nonempty(counts);
}

proof fn lemma_strips_nonempty(counts: Seq<usize>)
    requires
        forall|k: int| 0 <= k < counts.len() ==> counts[k] >= 1,
        exists|k: int| 0 <= k < counts.len() && counts[k] >= 2,
        2 * total_points(counts) <= u32::MAX,
    ensures
        strips(counts).len() > 0,
    decreases counts.len(),
{
    let init = counts.drop_last();
    lemma_total_points_monotone(counts, counts.len() - 1);
    assert(counts.take(counts.len() - 1) =~= init);
    lemma_strips_within(init);
    let base = 2 * total_points(init);
    lemma_lane_strip_within(base, counts.last() as int);
    if counts.last() < 2 {
        let k = choose|k: int| 0 <= k < counts.len() && counts[k] >= 2;
        assert(init[k] == counts[k]);
        lemma_strips_nonempty(init);
    }
}

/// An accepted mesh can back a collider: it has vertices all finite, at
/// least one whole triangle, and every whole triangle uses three distinct
/// vertices that exist.
pub proof fn lemma_accepted_mesh_is_sound(indices: Seq<u32>, vertex_count: usize, first_non_finite: Option<usize>)
    ensures
        mesh_check(indices, vertex_count, first_non_finite) is Ok ==> first_non_finite is None && indices.len() >= 3
            && forall|t: int|
            0 <= t < indices.len() / 3 ==> {
                let a = #[trigger] indices[3 * t];
                let b = indices[3 * t + 1];
                let c = indices[3 * t + 2];
                a < vertex_count && b < vertex_count && c < vertex_count && a != b && b != c && a != c
            },
{
    if mesh_check(indices, vertex_count, first_non_finite) is Ok {
        lemma_no_fault_below(indices, vertex_count, (indices.len() / 3) as int);
    }
}

/// No fault among the first `n` triangles means each of them is sound.
proof fn lemma_no_fault_below(indices: Seq<u32>, vertex_count: usize, n: int)
    requires
        first_fault(indices, vertex_count, n) is None,
    ensures
        forall|t: int|
            0 <= t < n ==> {
                let a = #[trigger] indices[3 * t];
                let b = indices[3 * t + 1];
                let c = indices[3 * t + 2];
                a < vertex_count && b < vertex_count && c < vertex_count && a != b && b != c && a != c
            },
    decreases n,
{
    if n > 0 {
        lemma_no_fault_below(indices, vertex_count, n - 1);
        assert(triangle_fault(indices, vertex_count, n - 1) is None);
    }
}

/// A triangle that repeats a vertex, or indexes one past the end, is never
/// accepted.
pub proof fn lemma_bad_triangle_rejected(indices: Seq<u32>, vertex_count: usize, first_non_finite: Option<usize>, t: int)
    requires
        0 <= t < indices.len() / 3,
        indices[3 * t] == indices[3 * t + 1] || indices[3 * t + 1] == indices[3 * t + 2] || indices[3 * t]
            == indices[3 * t + 2] || indices[3 * t] >= vertex_count || indices[3 * t + 1] >= vertex_count
            || indices[3 * t + 2] >= vertex_count,
    ensures
        mesh_check(indices, vertex_count, first_non_finite) is Err,
{
    lemma_accepted_mesh_is_sound(indices, vertex_count, first_non_finite);
}

} // verus!
