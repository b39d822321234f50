use vstd::prelude::*;

use crate::color::{Color, MAX_ROOT_DEN, is_color_at_root, lemma_channel_at_root_unique};

verus! {

/// A vertex after projection to the screen: an integer pixel position and the
/// color it carries.
#[derive(Clone, Copy, Debug, PartialEq, Eq, Structural)]
pub struct ScreenVertex {
    pub x: i32,
    pub y: i32,
    pub color: Color,
}

/// A candidate pixel write. The interpolation parameter of the fragment is
/// `t = sqrt(covered_sq) / sqrt(total_sq)` (zero when `total_sq` is zero): the
/// distance from the start of the edge over the length of the edge.
#[derive(Clone, Copy, Debug, PartialEq, Eq, Structural)]
pub struct Fragment {
    pub x: i32,
    pub y: i32,
    pub color: Color,
    pub covered_sq: u128,
    pub total_sq: u128,
}

/// Squared Euclidean distance between two points.
pub open spec fn dist_sq(x0: int, y0: int, x1: int, y1: int) -> int {
    (x1 - x0) * (x1 - x0) + (y1 - y0) * (y1 - y0)
}

/// Absolute value.
pub open spec fn abs(v: int) -> int {
    if v < 0 { -v } else { v }
}

/// `f` is the fragment of the edge from `a` to `b` at pixel `(x, y)`.
pub open spec fn is_fragment_at(a: ScreenVertex, b: ScreenVertex, x: int, y: int, f: Fragment) -> bool {
    &&& f.x == x
    &&& f.y == y
    &&& f.covered_sq == dist_sq(a.x as int, a.y as int, x, y)
    &&& f.total_sq == dist_sq(a.x as int, a.y as int, b.x as int, b.y as int)
    &&& f.total_sq == 0 ==> f.color == a.color
    &&& f.total_sq > 0 ==> is_color_at_root(a.color, b.color, f.covered_sq as int, f.total_sq as int, f.color)
}

/// One step of the line walk from `a` to `b`, on a pixel and a decision
/// accumulator: with `e2 = 2 * err`, advance in x when `e2 > -dy` and in y when
/// `e2 < dx`, possibly both.
pub open spec fn walk_step(a: ScreenVertex, b: ScreenVertex, s: (int, int, int)) -> (int, int, int) {
    let dx = abs(b.x - a.x);
    let dy = abs(b.y - a.y);
    let sx: int = if a.x < b.x { 1 } else { -1 };
    let sy: int = if a.y < b.y { 1 } else { -1 };
    let (x, y, err) = s;
    let e2 = 2 * err;
    let (x1, err1) = if e2 > -dy { (x + sx, err - dy) } else { (x, err) };
    let (y1, err2) = if e2 < dx { (y + sy, err1 + dx) } else { (y, err1) };
    (x1, y1, err2)
}

/// Pixel and accumulator after `i` steps of the walk from `a` to `b`; the
/// accumulator starts at `dx - dy`.
pub open spec fn walk(a: ScreenVertex, b: ScreenVertex, i: nat) -> (int, int, int)
    decreases i,
{
    if i == 0 {
        (a.x as int, a.y as int, abs(b.x - a.x) - abs(b.y - a.y))
    } else {
        walk_step(a, b, walk(a, b, (i - 1) as nat))
    }
}

/// `s` is the rasterized edge from `a` to `b`: one fragment per pixel of the
/// walk, from `a`'s pixel up to the first time the walk reaches `b`'s pixel.
pub open spec fn is_edge(a: ScreenVertex, b: ScreenVertex, s: Seq<Fragment>) -> bool {
    &&& s.len() >= 1
    &&& forall|i: int| 0 <= i < s.len() ==>
        is_fragment_at(a, b, walk(a, b, i as nat).0, walk(a, b, i as nat).1, #[trigger] s[i])
    &&& forall|i: int| 0 <= i < s.len() - 1 ==>
        !(#[trigger] walk(a, b, i as nat).0 == b.x && walk(a, b, i as nat).1 == b.y)
    &&& s.last().x == b.x && s.last().y == b.y
}

/// The rasterized edge from `a` to `b`.
pub open spec fn edge(a: ScreenVertex, b: ScreenVertex) -> Seq<Fragment> {
    choose|s: Seq<Fragment>| is_edge(a, b, s)
}

proof fn lemma_fragment_unique(a: ScreenVertex, b: ScreenVertex, x: int, y: int, f1: Fragment, f2: Fragment)
    requires
        is_fragment_at(a, b, x, y, f1),
        is_fragment_at(a, b, x, y, f2),
    ensures
        f1 == f2,
{
    if f1.total_sq > 0 {
        let (n, d) = (f1.covered_sq as int, f1.total_sq as int);
        lemma_channel_at_root_unique(a.color.r as int, b.color.r as int, n, d, f1.color.r as int, f2.color.r as int);
        lemma_channel_at_root_unique(a.color.g as int, b.color.g as int, n, d, f1.color.g as int, f2.color.g as int);
        lemma_channel_at_root_unique(a.color.b as int, b.color.b as int, n, d, f1.color.b as int, f2.color.b as int);
    }
}

/// An edge has one rasterization only.
pub proof fn lemma_edge_unique(a: ScreenVertex, b: ScreenVertex, s1: Seq<Fragment>, s2: Seq<Fragment>)
    requires
        is_edge(a, b, s1),
        is_edge(a, b, s2),
    ensures
        s1 == s2,
{
    let w1 = walk(a, b, (s1.len() - 1) as nat);
    let w2 = walk(a, b, (s2.len() - 1) as nat);
    assert(s1[s1.len() - 1] == s1.last());
    assert(s2[s2.len() - 1] == s2.last());
    assert(w1.0 == b.x && w1.1 == b.y);
    assert(w2.0 == b.x && w2.1 == b.y);
    assert(s1.len() == s2.len());
    assert forall|i: int| 0 <= i < s1.len() implies s1[i] == s2[i] by {
        let w = walk(a, b, i as nat);
        lemma_fragment_unique(a, b, w.0, w.1, s1[i], s2[i]);
    }
    assert(s1 =~= s2);
}

/// The fragment of the edge from `a` to `b` at a pixel between them.
fn fragment_at(a: &ScreenVertex, b: &ScreenVertex, x: i64, y: i64) -> (f: Fragment)
    requires
        a.x <= x <= b.x || b.x <= x <= a.x,
        a.y <= y <= b.y || b.y <= y <= a.y,
    ensures
        is_fragment_at(*a, *b, x as int, y as int, f),
{
    let cx = x as i128 - a.x as i128;
    let cy = y as i128 - a.y as i128;
    let tx = b.x as i128 - a.x as i128;
    let ty = b.y as i128 - a.y as i128;
    assert(cx * cx <= tx * tx && cy * cy <= ty * ty) by (nonlinear_arith)
        requires
            0 <= cx <= tx || tx <= cx <= 0,
            0 <= cy <= ty || ty <= cy <= 0,
    ;
    assert(tx * tx <= 0x1_0000_0000_0000_0000 && ty * ty <= 0x1_0000_0000_0000_0000)
        by (nonlinear_arith)
        requires
            -0x1_0000_0000 <= tx <= 0x1_0000_0000,
            -0x1_0000_0000 <= ty <= 0x1_0000_0000,
    ;
    assert(cx * cx >= 0 && cy * cy >= 0) by (nonlinear_arith);
    let covered_sq = (cx * cx + cy * cy) as u128;
    let total_sq = (tx * tx + ty * ty) as u128;
    let color = Color::lerp_by_distance(&a.color, &b.color, covered_sq, total_sq);
    Fragment { x: x as i32, y: y as i32, color, covered_sq, total_sq }
}

/// Rasterizes the edge from `a` to `b`: one fragment per pixel of the walk,
/// from `a`'s pixel up to and including `b`'s pixel, where the walk stops.
pub fn line(a: &ScreenVertex, b: &ScreenVertex) -> (frags: Vec<Fragment>)
    ensures
        is_edge(*a, *b, frags@),
        frags@ == edge(*a, *b),
{
    let x0 = a.x as i64;
    let y0 = a.y as i64;
    let x1 = b.x as i64;
    let y1 = b.y as i64;
    let dx: i64 = if x1 >= x0 { x1 - x0 } else { x0 - x1 };
    let dy: i64 = if y1 >= y0 { y1 - y0 } else { y0 - y1 };
    let sx: i64 = if x0 < x1 { 1 } else { -1 };
    let sy: i64 = if y0 < y1 { 1 } else { -1 };
    let mut err: i64 = dx - dy;
    let mut x: i64 = x0;
    let mut y: i64 = y0;
    let ghost mut ex: int = dx as int;
    let ghost mut ey: int = dy as int;
    let ghost mut n: nat = 0;
    let mut frags: Vec<Fragment> = Vec::new();
    frags.push(fragment_at(a, b, x, y));
    while !(x == x1 && y == y1)
        invariant
            dx == abs(b.x - a.x),
            dy == abs(b.y - a.y),
            sx == (if a.x < b.x { 1int } else { -1int }),
            sy == (if a.y < b.y { 1int } else { -1int }),
            x0 == a.x && y0 == a.y && x1 == b.x && y1 == b.y,
            0 <= ex <= dx,
            0 <= ey <= dy,
            sx == 1 ==> x == x1 - ex,
            sx == -1 ==> x == x1 + ex,
            sy == 1 ==> y == y1 - ey,
            sy == -1 ==> y == y1 + ey,
            err == dx - dy + dy * ex - dx * ey,
            -2 * dy <= err <= 2 * dx,
            walk(*a, *b, n) == (x as int, y as int, err as int),
            frags@.len() == n + 1,
            forall|i: int| 0 <= i <= n ==>
                is_fragment_at(*a, *b, walk(*a, *b, i as nat).0, walk(*a, *b, i as nat).1, #[trigger] frags@[i]),
            forall|i: int| 0 <= i < n ==>
                !(#[trigger] walk(*a, *b, i as nat).0 == b.x && walk(*a, *b, i as nat).1 == b.y),
        decreases ex + ey,
    {
        proof {
            assert(ex > 0 || ey > 0);
        }
        let e2 = 2 * err;
        let ghost old_ex = ex;
        let ghost old_ey = ey;
        let ghost old_err = err as int;
        if e2 > -dy {
            proof {
                assert(ex > 0) by (nonlinear_arith)
                    requires
                        ex == 0 ==> ey > 0,
                        err == dx - dy + dy * ex - dx * ey,
                        2 * err > -dy,
                        0 <= ex, 0 <= ey <= dy, dx >= 0,
                ;
                assert(dy * (ex - 1) == dy * ex - dy) by (nonlinear_arith);
                ex = ex - 1;
            }
            err = err - dy;
            x = x + sx;
        }
        if e2 < dx {
            proof {
                assert(ey > 0) by (nonlinear_arith)
                    requires
                        ey == 0 ==> old_ex > 0,
                        old_err == dx - dy + dy * old_ex - dx * ey,
                        2 * old_err < dx,
                        0 <= old_ex <= dx, 0 <= ey, dy >= 0,
                ;
                assert(dx * (ey - 1) == dx * ey - dx) by (nonlinear_arith);
                ey = ey - 1;
            }
            err = err + dx;
            y = y + sy;
        }
        proof {
            assert(ex + ey < old_ex + old_ey) by {
                if ex == old_ex && ey == old_ey {
                    assert(dx == 0 && dy == 0);
                }
            }
            n = n + 1;
        }
        frags.push(fragment_at(a, b, x, y));
        assert(frags@[n as int] == frags@.last());
    }
    proof {
        assert(frags@[n as int] == frags@.last());
        assert(is_edge(*a, *b, frags@));
        lemma_edge_unique(*a, *b, frags@, edge(*a, *b));
    }
    frags
}

/// Each step of the walk moves to one of the eight neighbouring pixels, or
/// stays in place only when the edge has length zero.
pub proof fn lemma_walk_step_adjacent(a: ScreenVertex, b: ScreenVertex, i: nat)
    ensures
        abs(walk(a, b, i + 1).0 - walk(a, b, i).0) <= 1,
        abs(walk(a, b, i + 1).1 - walk(a, b, i).1) <= 1,
        (a.x != b.x || a.y != b.y) ==> walk(a, b, i + 1) != walk(a, b, i),
{
    assert(walk(a, b, i + 1) == walk_step(a, b, walk(a, b, i)));
}

proof fn lemma_walk_horizontal(a: ScreenVertex, b: ScreenVertex, i: nat)
    requires
        a.y == b.y,
        i <= abs(b.x - a.x),
    ensures
        walk(a, b, i) == (
            if a.x < b.x { a.x + i } else { a.x - i },
            a.y as int,
            abs(b.x - a.x),
        ),
    decreases i,
{
    if i > 0 {
        lemma_walk_horizontal(a, b, (i - 1) as nat);
    }
}

proof fn lemma_walk_vertical(a: ScreenVertex, b: ScreenVertex, i: nat)
    requires
        a.x == b.x,
        i <= abs(b.y - a.y),
    ensures
        walk(a, b, i) == (
            a.x as int,
            if a.y < b.y { a.y + i } else { a.y - i },
            -abs(b.y - a.y),
        ),
    decreases i,
{
    if i > 0 {
        lemma_walk_vertical(a, b, (i - 1) as nat);
    }
}

/// A horizontal or vertical edge is rasterized into one fragment per pixel
/// from end to end: its length plus one.
pub proof fn lemma_axis_aligned_edge_len(a: ScreenVertex, b: ScreenVertex, s: Seq<Fragment>)
    requires
        a.x == b.x || a.y == b.y,
        is_edge(a, b, s),
    ensures
        s.len() == abs(b.x - a.x) + abs(b.y - a.y) + 1,
{
    let n = abs(b.x - a.x) + abs(b.y - a.y);
    let last = (s.len() - 1) as nat;
    assert(s[last as int] == s.last());
    if a.y == b.y {
        if last < n {
            lemma_walk_horizontal(a, b, last);
        } else if last > n {
            lemma_walk_horizontal(a, b, n as nat);
            assert(!(walk(a, b, n as nat).0 == b.x && walk(a, b, n as nat).1 == b.y));
        }
    } else {
        if last < n {
            lemma_walk_vertical(a, b, last);
        } else if last > n {
            lemma_walk_vertical(a, b, n as nat);
            assert(!(walk(a, b, n as nat).0 == b.x && walk(a, b, n as nat).1 == b.y));
        }
    }
}

} // verus!
