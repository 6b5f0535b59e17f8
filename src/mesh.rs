use vstd::prelude::*;
use vstd::arithmetic::div_mod::{lemma_div_is_ordered, lemma_div_multiples_vanish, lemma_div_pos_is_pos};
use crate::buffer::ColorBuffer;
use crate::color::Vec3;
use crate::error::MeshError;
use crate::obj::{
    face_views, indices_in_range, lemma_parse_records_err, lemma_parsed_faces_long, parse_obj,
    parse_record, parse_records, records, split_pieces, views,
};
use crate::raster::{line, line_points, Point};

verus! {

/// Fixed-point scale of vertex coordinates: a stored coordinate `c` stands
/// for the number `c / UNIT`, so `UNIT` is `1.0`.
pub const UNIT: i64 = 1_000_000;

/// A vertex position in fixed point (see [`UNIT`]).
#[derive(Clone, Copy, Debug, PartialEq, Eq, Structural)]
pub struct Vec3f {
    pub x: i64,
    pub y: i64,
    pub z: i64,
}

/// A polygon given by 0-based indices into the mesh's vertex list; only the
/// first three indices are drawn.
#[derive(Clone, Debug)]
pub struct Face {
    pub indices: Vec<usize>,
}

/// A parsed mesh.
#[derive(Clone, Debug)]
pub struct Model {
    pub vertices: Vec<Vec3f>,
    pub faces: Vec<Face>,
    pub file_name: String,
}

/// Coordinate `a` (0 for x, 1 for y, otherwise z) of `v`.
pub open spec fn coord(v: Vec3f, a: int) -> int {
    if a == 0 {
        v.x as int
    } else if a == 1 {
        v.y as int
    } else {
        v.z as int
    }
}

pub open spec fn min_int(a: int, b: int) -> int {
    if a <= b { a } else { b }
}

pub open spec fn max_int(a: int, b: int) -> int {
    if a >= b { a } else { b }
}

/// Smallest coordinate `a` over a non-empty vertex sequence.
pub open spec fn axis_min(vs: Seq<Vec3f>, a: int) -> int
    decreases vs.len(),
{
    if vs.len() <= 1 {
        if vs.len() == 0 { 0 } else { coord(vs[0], a) }
    } else {
        min_int(axis_min(vs.drop_last(), a), coord(vs.last(), a))
    }
}

/// Largest coordinate `a` over a non-empty vertex sequence.
pub open spec fn axis_max(vs: Seq<Vec3f>, a: int) -> int
    decreases vs.len(),
{
    if vs.len() <= 1 {
        if vs.len() == 0 { 0 } else { coord(vs[0], a) }
    } else {
        max_int(axis_max(vs.drop_last(), a), coord(vs.last(), a))
    }
}

/// The mesh has a vertex and a positive extent along every axis.
pub open spec fn non_degenerate(vs: Seq<Vec3f>) -> bool {
    &&& vs.len() > 0
    &&& axis_min(vs, 0) < axis_max(vs, 0)
    &&& axis_min(vs, 1) < axis_max(vs, 1)
    &&& axis_min(vs, 2) < axis_max(vs, 2)
}

/// `c` rescaled from `[lo, hi]` onto `[0, UNIT]`, rounded down.
pub open spec fn rescale(c: int, lo: int, hi: int) -> int {
    (c - lo) * (UNIT as int) / (hi - lo)
}

/// Coordinate `a` of vertex `i` after normalization.
pub open spec fn normalized_coord(vs: Seq<Vec3f>, i: int, a: int) -> int {
    rescale(coord(vs[i], a), axis_min(vs, a), axis_max(vs, a))
}

/// Every coordinate of every vertex lies in `[0, UNIT]`.
pub open spec fn in_unit_cube(vs: Seq<Vec3f>) -> bool {
    forall|i: int, a: int| 0 <= i < vs.len() && 0 <= a < 3 ==> 0 <= #[trigger] coord(vs[i], a) <= UNIT
}

/// Pixel column or row of a normalized coordinate on a grid of `size` cells.
pub open spec fn project_coord(c: int, size: int) -> int {
    c * size / (UNIT as int)
}

/// Every face has at least three indices, all naming existing vertices.
pub open spec fn faces_valid(faces: Seq<Face>, n_vertices: int) -> bool {
    forall|f: int| 0 <= f < faces.len() ==> {
        &&& (#[trigger] faces[f]).indices@.len() >= 3
        &&& forall|k: int| 0 <= k < faces[f].indices@.len() ==> (#[trigger] faces[f].indices@[k]) < n_vertices
    }
}

/// The `k`-th drawn edge (`k` in `0..3`) of face `f` runs between these two vertex indices.
pub open spec fn edge_ends(faces: Seq<Face>, f: int, k: int) -> (int, int) {
    (faces[f].indices@[k] as int, faces[f].indices@[(k + 1) % 3] as int)
}

/// The pixels of drawn edge `e` (edge `e % 3` of face `e / 3`) on a `w` by `h` grid.
pub open spec fn edge_points(vs: Seq<Vec3f>, faces: Seq<Face>, e: int, w: int, h: int) -> Seq<(int, int)> {
    let (a, b) = edge_ends(faces, e / 3, e % 3);
    line_points(
        project_coord(vs[a].x as int, w),
        project_coord(vs[a].y as int, h),
        project_coord(vs[b].x as int, w),
        project_coord(vs[b].y as int, h),
    )
}

/// Pixel `(px, py)` lies on one of the first `n` drawn edges.
pub open spec fn on_edges(vs: Seq<Vec3f>, faces: Seq<Face>, n: int, w: int, h: int, px: int, py: int) -> bool {
    exists|e: int| 0 <= e < n && (#[trigger] edge_points(vs, faces, e, w, h)).contains((px, py))
}

/// Some vertex has normalized coordinate `a` equal to `value`.
pub open spec fn normalized_attains(vs: Seq<Vec3f>, a: int, value: int) -> bool {
    exists|i: int| 0 <= i < vs.len() && #[trigger] normalized_coord(vs, i, a) == value
}

/// Every coordinate lies between the axis minimum and maximum, and both are attained.
pub proof fn lemma_axis_bounds(vs: Seq<Vec3f>, a: int)
    requires
        vs.len() > 0,
    ensures
        forall|i: int| 0 <= i < vs.len() ==> axis_min(vs, a) <= #[trigger] coord(vs[i], a) <= axis_max(vs, a),
        exists|i: int| 0 <= i < vs.len() && #[trigger] coord(vs[i], a) == axis_min(vs, a),
        exists|i: int| 0 <= i < vs.len() && #[trigger] coord(vs[i], a) == axis_max(vs, a),
    decreases vs.len(),
{
    if vs.len() == 1 {
        assert(coord(vs[0], a) == axis_min(vs, a));
        assert(coord(vs[0], a) == axis_max(vs, a));
    } else {
        let init = vs.drop_last();
        lemma_axis_bounds(init, a);
        assert forall|i: int| 0 <= i < vs.len() implies axis_min(vs, a) <= #[trigger] coord(vs[i], a) <= axis_max(vs, a) by {
            if i < vs.len() - 1 {
                assert(vs[i] == init[i]);
            }
        }
        let last = vs.len() - 1;
        let i_min = choose|i: int| 0 <= i < init.len() && #[trigger] coord(init[i], a) == axis_min(init, a);
        let i_max = choose|i: int| 0 <= i < init.len() && #[trigger] coord(init[i], a) == axis_max(init, a);
        assert(vs[i_min] == init[i_min]);
        assert(vs[i_max] == init[i_max]);
        if coord(vs[last], a) <= axis_min(init, a) {
            assert(coord(vs[last], a) == axis_min(vs, a));
        } else {
            assert(coord(vs[i_min], a) == axis_min(vs, a));
        }
        if coord(vs[last], a) >= axis_max(init, a) {
            assert(coord(vs[last], a) == axis_max(vs, a));
        } else {
            assert(coord(vs[i_max], a) == axis_max(vs, a));
        }
    }
}

/// Rescaling onto `[0, UNIT]` stays in that range, sending `lo` to 0 and `hi` to `UNIT`.
pub proof fn lemma_rescale_bounds(c: int, lo: int, hi: int)
    requires
        lo <= c <= hi,
        lo < hi,
    ensures
        0 <= rescale(c, lo, hi) <= UNIT,
        c == lo ==> rescale(c, lo, hi) == 0,
        c == hi ==> rescale(c, lo, hi) == UNIT,
{
    let r = hi - lo;
    let u = UNIT as int;
    let x = (c - lo) * u;
    assert(0 <= x <= r * u) by (nonlinear_arith)
        requires x == (c - lo) * u, 0 <= c - lo <= r, u > 0;
    lemma_div_pos_is_pos(x, r);
    lemma_div_is_ordered(x, r * u, r);
    lemma_div_multiples_vanish(u, r);
    if c == hi {
        assert(x == r * u);
    }
}

/// After normalization of a mesh with positive extent on every axis, every
/// coordinate lies in `[0, UNIT]`; a vertex that held an axis's minimum maps
/// to 0 on that axis and one that held its maximum maps to `UNIT`; and such
/// vertices exist.
pub proof fn lemma_normalized_bounds(vs: Seq<Vec3f>)
    requires
        non_degenerate(vs),
    ensures
        forall|i: int, a: int| 0 <= i < vs.len() && 0 <= a < 3 ==> 0 <= #[trigger] normalized_coord(vs, i, a) <= UNIT,
        forall|i: int, a: int| 0 <= i < vs.len() && 0 <= a < 3 && coord(vs[i], a) == axis_min(vs, a)
            ==> #[trigger] normalized_coord(vs, i, a) == 0,
        forall|i: int, a: int| 0 <= i < vs.len() && 0 <= a < 3 && coord(vs[i], a) == axis_max(vs, a)
            ==> #[trigger] normalized_coord(vs, i, a) == UNIT,
        forall|a: int| 0 <= a < 3 ==> #[trigger] normalized_attains(vs, a, 0),
        forall|a: int| 0 <= a < 3 ==> #[trigger] normalized_attains(vs, a, UNIT as int),
{
    assert forall|i: int, a: int| 0 <= i < vs.len() && 0 <= a < 3 implies
        0 <= #[trigger] normalized_coord(vs, i, a) <= UNIT
        && (coord(vs[i], a) == axis_min(vs, a) ==> normalized_coord(vs, i, a) == 0)
        && (coord(vs[i], a) == axis_max(vs, a) ==> normalized_coord(vs, i, a) == UNIT) by {
        lemma_axis_bounds(vs, a);
        lemma_rescale_bounds(coord(vs[i], a), axis_min(vs, a), axis_max(vs, a));
    }
    assert forall|a: int| 0 <= a < 3 implies #[trigger] normalized_attains(vs, a, 0) by {
        lemma_axis_bounds(vs, a);
        let i0 = choose|i: int| 0 <= i < vs.len() && #[trigger] coord(vs[i], a) == axis_min(vs, a);
        assert(normalized_coord(vs, i0, a) == 0);
    }
    assert forall|a: int| 0 <= a < 3 implies #[trigger] normalized_attains(vs, a, UNIT as int) by {
        lemma_axis_bounds(vs, a);
        let i1 = choose|i: int| 0 <= i < vs.len() && #[trigger] coord(vs[i], a) == axis_max(vs, a);
        assert(normalized_coord(vs, i1, a) == UNIT as int);
    }
}

/// Coordinate `a` of `v` (0 for x, 1 for y, otherwise z).
fn axis_coord(v: &Vec3f, a: usize) -> (r: i64)
    ensures
        r == coord(*v, a as int),
{
    if a == 0 {
        v.x
    } else if a == 1 {
        v.y
    } else {
        v.z
    }
}

/// Smallest and largest coordinate `a` over a non-empty vertex list.
fn axis_bounds(vs: &Vec<Vec3f>, a: usize) -> (r: (i64, i64))
    requires
        vs@.len() > 0,
    ensures
        r.0 == axis_min(vs@, a as int),
        r.1 == axis_max(vs@, a as int),
{
    let mut lo: i64 = axis_coord(&vs[0], a);
    let mut hi: i64 = lo;
    let mut i: usize = 1;
    proof {
        assert(axis_min(vs@.take(1), a as int) == lo);
        assert(axis_max(vs@.take(1), a as int) == hi);
    }
    while i < vs.len()
        invariant
            1 <= i <= vs@.len(),
            lo == axis_min(vs@.take(i as int), a as int),
            hi == axis_max(vs@.take(i as int), a as int),
        decreases vs@.len() - i,
    {
        let c: i64 = axis_coord(&vs[i], a);
        proof {
            assert(vs@.take(i as int + 1).drop_last() =~= vs@.take(i as int));
            assert(vs@.take(i as int + 1).last() == vs@[i as int]);
        }
        if c < lo {
            lo = c;
        }
        if c > hi {
            hi = c;
        }
        i = i + 1;
    }
    proof {
        assert(vs@.take(vs@.len() as int) =~= vs@);
    }
    (lo, hi)
}

/// Coordinate `c` rescaled from `[lo, hi]` onto `[0, UNIT]`.
fn rescale_coord(c: i64, lo: i64, hi: i64) -> (r: i64)
    requires
        lo <= c <= hi,
        lo < hi,
    ensures
        r == rescale(c as int, lo as int, hi as int),
{
    proof {
        lemma_rescale_bounds(c as int, lo as int, hi as int);
    }
    let num: i128 = (c as i128 - lo as i128) * (UNIT as i128);
    let den: i128 = hi as i128 - lo as i128;
    (num / den) as i64
}

/// The pixel that a normalized vertex falls on in a `width` by `height` grid;
/// the depth coordinate is not used.
pub fn project(v: &Vec3f, width: usize, height: usize) -> (r: Point)
    requires
        0 <= v.x <= UNIT,
        0 <= v.y <= UNIT,
        width <= i64::MAX,
        height <= i64::MAX,
    ensures
        r.x == project_coord(v.x as int, width as int),
        r.y == project_coord(v.y as int, height as int),
        0 <= r.x <= width,
        0 <= r.y <= height,
{
    proof {
        lemma_project_bounds(v.x as int, width as int);
        lemma_project_bounds(v.y as int, height as int);
    }
    let x: i128 = (v.x as i128) * (width as i128) / (UNIT as i128);
    let y: i128 = (v.y as i128) * (height as i128) / (UNIT as i128);
    Point { x: x as i64, y: y as i64 }
}

proof fn lemma_project_bounds(c: int, size: int)
    requires
        0 <= c <= UNIT,
        0 <= size,
    ensures
        0 <= project_coord(c, size) <= size,
        c * size <= UNIT * size,
{
    let u = UNIT as int;
    assert(0 <= c * size <= u * size) by (nonlinear_arith)
        requires 0 <= c <= u, 0 <= size;
    lemma_div_pos_is_pos(c * size, u);
    lemma_div_is_ordered(c * size, u * size, u);
    lemma_div_multiples_vanish(size, u);
}

impl Model {
    /// The mesh's faces refer only to existing vertices and have three or more of them.
    pub open spec fn wf(&self) -> bool {
        faces_valid(self.faces@, self.vertices@.len() as int)
    }

    /// Reads a mesh from its text: `v x y z` lines give vertices, `f a b c
    /// ...` lines give faces by 1-based vertex numbers (anything after a `/`
    /// in a reference is ignored), and other lines are skipped. Any malformed
    /// `v` or `f` line, or a face naming a missing vertex, fails the whole text.
    pub fn parse(text: &[u8], file_name: String) -> (r: Result<Model, MeshError>)
        ensures
            match parse_obj(text@) {
                Ok(st) => r is Ok && r->Ok_0.vertices@ == st.0 && face_views(r->Ok_0.faces@) == st.1
                    && r->Ok_0.file_name@ == file_name@ && r->Ok_0.wf(),
                Err(e) => r == Err::<Model, MeshError>(e),
            },
    {
        let lines = split_pieces(text, true);
        let ghost recs = records(text@);
        let mut vertices: Vec<Vec3f> = Vec::new();
        let mut faces: Vec<Face> = Vec::new();
        let nl: usize = lines.len();
        assert(recs.len() == nl);
        let mut i: usize = 0;
        assert(recs.take(0) =~= Seq::<Seq<Seq<u8>>>::empty());
        assert(face_views(faces@) =~= Seq::<Seq<usize>>::empty());
        while i < nl
            invariant
                recs == records(text@),
                views(lines@) == crate::obj::pieces(text@, true),
                nl == lines@.len(),
                recs.len() == nl,
                i <= nl,
                parse_records(recs.take(i as int)) == Ok::<crate::obj::MeshParts, MeshError>((vertices@, face_views(faces@))),
            decreases nl - i,
        {
            let toks = split_pieces(lines[i].as_slice(), false);
            proof {
                assert(views(lines@)[i as int] == lines@[i as int]@);
                assert(recs[i as int] == views(toks@));
                assert(recs.take(i as int + 1).drop_last() =~= recs.take(i as int));
                assert(recs.take(i as int + 1).last() == recs[i as int]);
            }
            let res = parse_record(&toks, &mut vertices, &mut faces);
            match res {
                Ok(()) => {},
                Err(e) => {
                    proof {
                        lemma_parse_records_err(recs, i as int + 1);
                    }
                    return Err(e);
                },
            }
            i = i + 1;
        }
        proof {
            assert(recs.take(nl as int) =~= recs);
            lemma_parsed_faces_long(recs);
        }
        let nv: usize = vertices.len();
        let mut f: usize = 0;
        while f < faces.len()
            invariant
                f <= faces@.len(),
                nv == vertices@.len(),
                recs == records(text@),
                parse_records(recs) == Ok::<crate::obj::MeshParts, MeshError>((vertices@, face_views(faces@))),
                forall|g: int, k: int| 0 <= g < f && 0 <= k < faces@[g].indices@.len()
                    ==> #[trigger] faces@[g].indices@[k] < nv,
            decreases faces@.len() - f,
        {
            let mut k: usize = 0;
            while k < faces[f].indices.len()
                invariant
                    f < faces@.len(),
                    k <= faces@[f as int].indices@.len(),
                    nv == vertices@.len(),
                    recs == records(text@),
                    parse_records(recs) == Ok::<crate::obj::MeshParts, MeshError>((vertices@, face_views(faces@))),
                    forall|g: int, k2: int| 0 <= g < f && 0 <= k2 < faces@[g].indices@.len()
                        ==> #[trigger] faces@[g].indices@[k2] < nv,
                    forall|k2: int| 0 <= k2 < k ==> #[trigger] faces@[f as int].indices@[k2] < nv,
                decreases faces@[f as int].indices@.len() - k,
            {
                if faces[f].indices[k] >= nv {
                    proof {
                        let fv = face_views(faces@);
                        assert(fv[f as int][k as int] == faces@[f as int].indices@[k as int]);
                        assert(!indices_in_range(fv, nv as int));
                    }
                    return Err(MeshError::IndexOutOfRange);
                }
                k = k + 1;
            }
            f = f + 1;
        }
        let ghost fv = face_views(faces@);
        assert forall|g: int, k: int| 0 <= g < fv.len() && 0 <= k < fv[g].len() implies #[trigger] fv[g][k] < nv by {
            assert(fv[g] == faces@[g].indices@);
        }
        assert forall|g: int| 0 <= g < faces@.len() implies (#[trigger] faces@[g]).indices@.len() >= 3 by {
            assert(fv[g] == faces@[g].indices@);
        }
        Ok(Model { vertices, faces, file_name })
    }

    /// The faces, giving up the rest of the mesh.
    pub fn into_faces(self) -> (r: Vec<Face>)
        ensures
            r@ == self.faces@,
    {
        self.faces
    }

    pub fn num_faces(&self) -> (r: usize)
        ensures
            r == self.faces@.len(),
    {
        self.faces.len()
    }

    pub fn num_vertices(&self) -> (r: usize)
        ensures
            r == self.vertices@.len(),
    {
        self.vertices.len()
    }

    /// Rescales every coordinate onto `[0, UNIT]` per axis, using the mesh's
    /// own minimum and maximum on that axis. A mesh with no vertices, or with
    /// zero extent along an axis, is left as it is and refused.
    pub fn normalize_vertices(&mut self) -> (r: Result<(), MeshError>)
        ensures
            r is Ok <==> non_degenerate(old(self).vertices@),
            r is Err ==> r == Err::<(), MeshError>(MeshError::DegenerateGeometry)
                && final(self).vertices@ == old(self).vertices@,
            r is Ok ==> final(self).vertices@.len() == old(self).vertices@.len(),
            r is Ok ==> in_unit_cube(final(self).vertices@),
            r is Ok ==> forall|i: int, a: int|
                0 <= i < old(self).vertices@.len() && 0 <= a < 3
                    ==> #[trigger] coord(final(self).vertices@[i], a) == normalized_coord(old(self).vertices@, i, a),
            final(self).faces@ == old(self).faces@,
            final(self).file_name@ == old(self).file_name@,
    {
        let n: usize = self.vertices.len();
        if n == 0 {
            return Err(MeshError::DegenerateGeometry);
        }
        let (lx, hx) = axis_bounds(&self.vertices, 0);
        let (ly, hy) = axis_bounds(&self.vertices, 1);
        let (lz, hz) = axis_bounds(&self.vertices, 2);
        if !(lx < hx && ly < hy && lz < hz) {
            return Err(MeshError::DegenerateGeometry);
        }
        let ghost vs = self.vertices@;
        proof {
            lemma_axis_bounds(vs, 0);
            lemma_axis_bounds(vs, 1);
            lemma_axis_bounds(vs, 2);
        }
        let mut out: Vec<Vec3f> = Vec::with_capacity(n);
        let mut i: usize = 0;
        while i < n
            invariant
                vs == self.vertices@,
                n == vs.len(),
                i <= n,
                non_degenerate(vs),
                lx == axis_min(vs, 0) && hx == axis_max(vs, 0),
                ly == axis_min(vs, 1) && hy == axis_max(vs, 1),
                lz == axis_min(vs, 2) && hz == axis_max(vs, 2),
                forall|j: int, a: int| 0 <= j < vs.len() && 0 <= a < 3 ==> axis_min(vs, a) <= #[trigger] coord(vs[j], a) <= axis_max(vs, a),
                out@.len() == i,
                forall|j: int, a: int| 0 <= j < i && 0 <= a < 3
                    ==> #[trigger] coord(out@[j], a) == normalized_coord(vs, j, a),
            decreases n - i,
        {
            let v: Vec3f = self.vertices[i];
            assert(coord(v, 0) == v.x && coord(v, 1) == v.y && coord(v, 2) == v.z);
            let nv = Vec3f {
                x: rescale_coord(v.x, lx, hx),
                y: rescale_coord(v.y, ly, hy),
                z: rescale_coord(v.z, lz, hz),
            };
            out.push(nv);
            proof {
                assert forall|j: int, a: int| 0 <= j < i + 1 && 0 <= a < 3
                    implies #[trigger] coord(out@[j], a) == normalized_coord(vs, j, a) by {
                    if j == i {
                        assert(out@[j] == nv);
                    }
                }
            }
            i = i + 1;
        }
        proof {
            lemma_normalized_bounds(vs);
        }
        self.vertices = out;
        Ok(())
    }

    /// Draws every face as a wireframe triangle: the edges from its first to
    /// second, second to third and third to first vertex, each vertex
    /// projected onto the buffer's grid.
    pub fn draw(&self, img: &mut ColorBuffer, color: Vec3)
        requires
            self.wf(),
            in_unit_cube(self.vertices@),
            old(img).wf(),
        ensures
            final(img).wf(),
            final(img).spec_width() == old(img).spec_width(),
            final(img).spec_height() == old(img).spec_height(),
            forall|px: int, py: int|
                #![trigger final(img).pixel(px, py)]
                final(img).in_bounds(px, py) ==> final(img).pixel(px, py) == if on_edges(
                    self.vertices@,
                    self.faces@,
                    3 * self.faces@.len() as int,
                    old(img).spec_width(),
                    old(img).spec_height(),
                    px,
                    py,
                ) {
                    color
                } else {
                    old(img).pixel(px, py)
                },
    {
        let w: usize = img.width();
        let h: usize = img.height();
        if w == 0 || h == 0 {
            return;
        }
        proof {
            img.lemma_len();
            assert(w * 3 <= w * h * 3) by (nonlinear_arith)
                requires h >= 1, w >= 0;
            assert(h * 3 <= w * h * 3) by (nonlinear_arith)
                requires w >= 1, h >= 0;
        }
        let ghost vs = self.vertices@;
        let ghost fs = self.faces@;
        let ghost start = *img;
        let nf: usize = self.faces.len();
        let mut f: usize = 0;
        while f < nf
            invariant
                vs == self.vertices@,
                fs == self.faces@,
                nf == fs.len(),
                f <= nf,
                self.wf(),
                in_unit_cube(vs),
                w <= i64::MAX,
                h <= i64::MAX,
                img.wf(),
                img.spec_width() == w,
                img.spec_height() == h,
                start.spec_width() == w,
                start.spec_height() == h,
                forall|px: int, py: int|
                    #![trigger img.pixel(px, py)]
                    img.in_bounds(px, py) ==> img.pixel(px, py) == if on_edges(vs, fs, 3 * f, w as int, h as int, px, py) {
                        color
                    } else {
                        start.pixel(px, py)
                    },
            decreases nf - f,
        {
            let face = &self.faces[f];
            let mut k: usize = 0;
            while k < 3
                invariant
                    vs == self.vertices@,
                    fs == self.faces@,
                    nf == fs.len(),
                    f < nf,
                    k <= 3,
                    *face == fs[f as int],
                    self.wf(),
                    in_unit_cube(vs),
                    w <= i64::MAX,
                    h <= i64::MAX,
                    img.wf(),
                    img.spec_width() == w,
                    img.spec_height() == h,
                    start.spec_width() == w,
                    start.spec_height() == h,
                    forall|px: int, py: int|
                        #![trigger img.pixel(px, py)]
                        img.in_bounds(px, py) ==> img.pixel(px, py) == if on_edges(vs, fs, 3 * f + k, w as int, h as int, px, py) {
                            color
                        } else {
                            start.pixel(px, py)
                        },
                decreases 3 - k,
            {
                let ia: usize = face.indices[k];
                let ib: usize = face.indices[(k + 1) % 3];
                let va: Vec3f = self.vertices[ia];
                let vb: Vec3f = self.vertices[ib];
                proof {
                    assert(coord(vs[ia as int], 0) == va.x && coord(vs[ia as int], 1) == va.y);
                    assert(coord(vs[ib as int], 0) == vb.x && coord(vs[ib as int], 1) == vb.y);
                }
                let p0 = project(&va, w, h);
                let p1 = project(&vb, w, h);
                let ghost before = *img;
                let ghost e: int = 3 * f + k;
                proof {
                    assert(e / 3 == f && e % 3 == k);
                    assert(edge_points(vs, fs, e, w as int, h as int)
                        == line_points(p0.x as int, p0.y as int, p1.x as int, p1.y as int));
                }
                line(&p0, &p1, img, &color);
                proof {
                    assert forall|px: int, py: int|
                        #![trigger img.pixel(px, py)]
                        img.in_bounds(px, py) implies img.pixel(px, py) == if on_edges(vs, fs, e + 1, w as int, h as int, px, py) {
                            color
                        } else {
                            start.pixel(px, py)
                        } by {
                        assert(before.in_bounds(px, py));
                        if edge_points(vs, fs, e, w as int, h as int).contains((px, py)) {
                            assert(on_edges(vs, fs, e + 1, w as int, h as int, px, py));
                        } else if on_edges(vs, fs, e + 1, w as int, h as int, px, py) {
                            let e2 = choose|e2: int| 0 <= e2 < e + 1
                                && (#[trigger] edge_points(vs, fs, e2, w as int, h as int)).contains((px, py));
                            assert(on_edges(vs, fs, e, w as int, h as int, px, py));
                        } else {
                            if on_edges(vs, fs, e, w as int, h as int, px, py) {
                                let e2 = choose|e2: int| 0 <= e2 < e
                                    && (#[trigger] edge_points(vs, fs, e2, w as int, h as int)).contains((px, py));
                                assert(on_edges(vs, fs, e + 1, w as int, h as int, px, py));
                            }
                        }
                    }
                }
                k = k + 1;
            }
            f = f + 1;
        }
    }
}

} // verus!
