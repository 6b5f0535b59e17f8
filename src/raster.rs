use vstd::prelude::*;
use crate::buffer::ColorBuffer;
use crate::color::Vec3;

verus! {

/// A pixel coordinate; it may lie outside any particular buffer.
#[derive(Clone, Copy, Debug, PartialEq, Eq, Structural)]
pub struct Point {
    pub x: i64,
    pub y: i64,
}

pub open spec fn abs_diff(a: int, b: int) -> int {
    if a < b { b - a } else { a - b }
}

/// Unit step from `a` towards `b` (`-1` when they are equal).
pub open spec fn step_dir(a: int, b: int) -> int {
    if a < b { 1 } else { -1 }
}

/// One step of the error-term walk: from `(x, y)` with error `err`, towards an
/// end point at distances `dx`, `dy` in directions `sx`, `sy`.
pub open spec fn walk_step(x: int, y: int, err: int, dx: int, dy: int, sx: int, sy: int) -> (int, int, int) {
    let e2 = 2 * err;
    let err1 = if e2 > -dy { err - dy } else { err };
    let x1 = if e2 > -dy { x + sx } else { x };
    let err2 = if e2 < dx { err1 + dx } else { err1 };
    let y1 = if e2 < dx { y + sy } else { y };
    (x1, y1, err2)
}

/// The points visited from `(x, y)` until `(x1, y1)` is reached (inclusive),
/// at most `fuel` of them.
pub open spec fn walk(
    x: int,
    y: int,
    err: int,
    x1: int,
    y1: int,
    dx: int,
    dy: int,
    sx: int,
    sy: int,
    fuel: nat,
) -> Seq<(int, int)>
    decreases fuel,
{
    if fuel == 0 {
        seq![]
    } else if x == x1 && y == y1 {
        seq![(x, y)]
    } else {
        let (nx, ny, nerr) = walk_step(x, y, err, dx, dy, sx, sy);
        seq![(x, y)] + walk(nx, ny, nerr, x1, y1, dx, dy, sx, sy, (fuel - 1) as nat)
    }
}

/// The ordered pixels of the integer line from `(x0, y0)` to `(x1, y1)`,
/// both ends included.
pub open spec fn line_points(x0: int, y0: int, x1: int, y1: int) -> Seq<(int, int)> {
    let dx = abs_diff(x0, x1);
    let dy = abs_diff(y0, y1);
    walk(x0, y0, dx - dy, x1, y1, dx, dy, step_dir(x0, x1), step_dir(y0, y1), (dx + dy + 1) as nat)
}

/// A line whose ends coincide is that single pixel.
pub proof fn lemma_degenerate_line(x: int, y: int)
    ensures
        line_points(x, y, x, y) == seq![(x, y)],
{
    assert(walk(x, y, 0, x, y, 0, 0, -1, -1, 1) == seq![(x, y)]);
}

/// Draws the line from `p0` to `p1` in `color`, both ends included; points
/// outside the buffer are skipped and every other pixel keeps its colour.
pub fn line(p0: &Point, p1: &Point, img: &mut ColorBuffer, color: &Vec3)
    requires
        old(img).wf(),
    ensures
        final(img).wf(),
        final(img).spec_width() == old(img).spec_width(),
        final(img).spec_height() == old(img).spec_height(),
        line_points(p0.x as int, p0.y as int, p1.x as int, p1.y as int).len() > 0,
        line_points(p0.x as int, p0.y as int, p1.x as int, p1.y as int)[0] == (p0.x as int, p0.y as int),
        line_points(p0.x as int, p0.y as int, p1.x as int, p1.y as int).last() == (p1.x as int, p1.y as int),
        final(img).in_bounds(p0.x as int, p0.y as int) ==> final(img).pixel(p0.x as int, p0.y as int) == *color,
        final(img).in_bounds(p1.x as int, p1.y as int) ==> final(img).pixel(p1.x as int, p1.y as int) == *color,
        forall|px: int, py: int|
            #![trigger final(img).pixel(px, py)]
            final(img).in_bounds(px, py) ==> final(img).pixel(px, py) == if line_points(
                p0.x as int,
                p0.y as int,
                p1.x as int,
                p1.y as int,
            ).contains((px, py)) {
                *color
            } else {
                old(img).pixel(px, py)
            },
{
    let x0: i128 = p0.x as i128;
    let y0: i128 = p0.y as i128;
    let x1: i128 = p1.x as i128;
    let y1: i128 = p1.y as i128;
    let dx: i128 = if x0 < x1 { x1 - x0 } else { x0 - x1 };
    let dy: i128 = if y0 < y1 { y1 - y0 } else { y0 - y1 };
    let sx: i128 = if x0 < x1 { 1 } else { -1 };
    let sy: i128 = if y0 < y1 { 1 } else { -1 };
    let mut err: i128 = dx - dy;
    let mut x: i128 = x0;
    let mut y: i128 = y0;
    let w: usize = img.width();
    let h: usize = img.height();
    let ghost fuel: nat = (dx + dy + 1) as nat;
    let ghost all = line_points(x0 as int, y0 as int, x1 as int, y1 as int);
    let ghost mut visited: Seq<(int, int)> = seq![];
    let ghost mut nx: int = 0;
    let ghost mut ny: int = 0;
    let ghost start = *img;
    loop
        invariant_except_break
            visited.len() <= nx + ny,
            all == visited + walk(x as int, y as int, err as int, x1 as int, y1 as int,
                dx as int, dy as int, sx as int, sy as int, (fuel - visited.len()) as nat),
        invariant
            img.wf(),
            img.spec_width() == w,
            img.spec_height() == h,
            img.spec_width() == start.spec_width(),
            img.spec_height() == start.spec_height(),
            start == *old(img),
            all == line_points(x0 as int, y0 as int, x1 as int, y1 as int),
            fuel == dx + dy + 1,
            0 <= dx <= 0x1_0000_0000_0000_0000,
            0 <= dy <= 0x1_0000_0000_0000_0000,
            dx == abs_diff(x0 as int, x1 as int),
            dy == abs_diff(y0 as int, y1 as int),
            sx == step_dir(x0 as int, x1 as int),
            sy == step_dir(y0 as int, y1 as int),
            0 <= nx <= dx,
            0 <= ny <= dy,
            x == x0 + sx * nx,
            y == y0 + sy * ny,
            err == dx + dx * ny - dy - dy * nx,
            -2 * (dx + dy) <= err <= 2 * (dx + dy),
            visited.len() > 0 ==> visited[0] == (x0 as int, y0 as int),
            visited.len() == 0 ==> x == x0 && y == y0,
            forall|px: int, py: int|
                #![trigger img.pixel(px, py)]
                img.in_bounds(px, py) ==> img.pixel(px, py) == if visited.contains((px, py)) {
                    *color
                } else {
                    start.pixel(px, py)
                },
        ensures
            all == visited,
            visited.len() > 0,
            visited.last() == (x1 as int, y1 as int),
        decreases (dx - nx) + (dy - ny),
    {
        let ghost before = *img;
        if 0 <= x && x < w as i128 && 0 <= y && y < h as i128 {
            img.set_pixel(x as usize, y as usize, color);
        }
        let ghost m: nat = (fuel - visited.len()) as nat;
        proof {
            assert(walk(x as int, y as int, err as int, x1 as int, y1 as int, dx as int, dy as int,
                sx as int, sy as int, m) =~= seq![(x as int, y as int)] + walk(
                walk_step(x as int, y as int, err as int, dx as int, dy as int, sx as int, sy as int).0,
                walk_step(x as int, y as int, err as int, dx as int, dy as int, sx as int, sy as int).1,
                walk_step(x as int, y as int, err as int, dx as int, dy as int, sx as int, sy as int).2,
                x1 as int, y1 as int, dx as int, dy as int, sx as int, sy as int, (m - 1) as nat)
                || (x == x1 && y == y1));
            let p = (x as int, y as int);
            assert forall|px: int, py: int|
                #![trigger img.pixel(px, py)]
                img.in_bounds(px, py) implies img.pixel(px, py) == if visited.push(p).contains((px, py)) {
                    *color
                } else {
                    start.pixel(px, py)
                } by {
                assert(visited.push(p).contains((px, py)) == (visited.contains((px, py)) || p == (px, py))) by {
                    if visited.contains((px, py)) {
                        let j = choose|j: int| 0 <= j < visited.len() && visited[j] == (px, py);
                        assert(visited.push(p)[j] == (px, py));
                    }
                    if p == (px, py) {
                        assert(visited.push(p)[visited.len() as int] == (px, py));
                    }
                }
                assert(before.in_bounds(px, py));
            }
            visited = visited.push(p);
        }
        if x == x1 && y == y1 {
            proof {
                assert(m >= 1);
                assert(all =~= visited);
            }
            break;
        }
        proof {
            // The walk never passes the end point on either axis.
            if nx == dx {
                assert(ny < dy);
                assert(dx * ny <= dx * (dy - 1)) by (nonlinear_arith)
                    requires ny <= dy - 1, dx >= 0;
                assert(err <= -dy) by (nonlinear_arith)
                    requires err == dx + dx * ny - dy - dy * nx, nx == dx, ny <= dy - 1, dx >= 0;
            }
            if ny == dy {
                assert(nx < dx);
                assert(dy * nx <= dy * (dx - 1)) by (nonlinear_arith)
                    requires nx <= dx - 1, dy >= 0;
                assert(err >= dx) by (nonlinear_arith)
                    requires err == dx + dx * ny - dy - dy * nx, ny == dy, nx <= dx - 1, dy >= 0;
            }
        }
        let err2: i128 = 2 * err;
        if err2 > -dy {
            err = err - dy;
            x = x + sx;
            proof {
                assert(dy * (nx + 1) == dy * nx + dy) by (nonlinear_arith);
                nx = nx + 1;
            }
        }
        if err2 < dx {
            err = err + dx;
            y = y + sy;
            proof {
                assert(dx * (ny + 1) == dx * ny + dx) by (nonlinear_arith);
                ny = ny + 1;
            }
        }
        proof {
            assert(visited.len() <= nx + ny);
        }
    }
    proof {
        assert(all[0] == (x0 as int, y0 as int));
        assert(all[all.len() - 1] == (x1 as int, y1 as int));
        assert(all.contains((x0 as int, y0 as int)));
        assert(all.contains((x1 as int, y1 as int)));
    }
}

} // verus!
