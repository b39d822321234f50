use vstd::prelude::*;

use crate::color::packed;
use crate::line::{Fragment, ScreenVertex, edge, line};

verus! {

/// Three screen vertices; their edges are drawn in the order v1 to v2, v2 to
/// v3, v3 to v1.
pub type Triangle = (ScreenVertex, ScreenVertex, ScreenVertex);

/// One framebuffer write: set the current color to `color`, a 24-bit packed
/// RGB value, then plot pixel `(x, y)`.
#[derive(Clone, Copy, Debug, PartialEq, Eq, Structural)]
pub struct PixelWrite {
    pub x: usize,
    pub y: usize,
    pub color: u32,
}

/// Consecutive groups of three vertices; an incomplete last group is dropped.
pub open spec fn triangles(vs: Seq<ScreenVertex>) -> Seq<Triangle> {
    Seq::new(vs.len() / 3, |i: int| (vs[3 * i], vs[3 * i + 1], vs[3 * i + 2]))
}

/// The three edges of a triangle, one after another.
pub open spec fn triangle_fragments(t: Triangle) -> Seq<Fragment> {
    edge(t.0, t.1) + edge(t.1, t.2) + edge(t.2, t.0)
}

/// The fragments of all triangles, in order.
pub open spec fn frame_fragments(tris: Seq<Triangle>) -> Seq<Fragment>
    decreases tris.len(),
{
    if tris.len() == 0 {
        Seq::empty()
    } else {
        frame_fragments(tris.drop_last()) + triangle_fragments(tris.last())
    }
}

/// The fragment's pixel lies inside a framebuffer of the given size.
pub open spec fn in_bounds(width: int, height: int, f: Fragment) -> bool {
    0 <= f.x < width && 0 <= f.y < height
}

/// The write for a fragment: its pixel and its packed color.
pub open spec fn write_of(f: Fragment) -> PixelWrite {
    PixelWrite { x: f.x as usize, y: f.y as usize, color: packed(f.color) as u32 }
}

/// The writes for a fragment sequence: one per fragment inside
/// `[0, width) x [0, height)`, in order; the others are dropped.
pub open spec fn writes_of(width: int, height: int, frags: Seq<Fragment>) -> Seq<PixelWrite>
    decreases frags.len(),
{
    if frags.len() == 0 {
        Seq::empty()
    } else {
        let rest = writes_of(width, height, frags.drop_last());
        if in_bounds(width, height, frags.last()) {
            rest.push(write_of(frags.last()))
        } else {
            rest
        }
    }
}

/// Groups the vertices three by three into triangles, in order.
pub fn assemble_primitives(vertex_array: &[ScreenVertex]) -> (tris: Vec<Triangle>)
    ensures
        tris@ == triangles(vertex_array@),
{
    let n = vertex_array.len();
    let mut tris: Vec<Triangle> = Vec::new();
    let mut k: usize = 0;
    while k < n / 3
        invariant
            n == vertex_array@.len(),
            k <= n / 3,
            tris@.len() == k,
            forall|j: int| 0 <= j < k ==> #[trigger] tris@[j] == triangles(vertex_array@)[j],
        decreases n / 3 - k,
    {
        let i = 3 * k;
        tris.push((vertex_array[i], vertex_array[i + 1], vertex_array[i + 2]));
        k = k + 1;
    }
    assert(tris@ =~= triangles(vertex_array@));
    tris
}

/// The fragments of the three edges of a triangle.
pub fn rasterize_triangle(triangle: Triangle) -> (frags: Vec<Fragment>)
    ensures
        frags@ == triangle_fragments(triangle),
{
    let (v1, v2, v3) = triangle;
    let mut frags = line(&v1, &v2);
    let mut e2 = line(&v2, &v3);
    let mut e3 = line(&v3, &v1);
    frags.append(&mut e2);
    frags.append(&mut e3);
    frags
}

/// Clips fragments to the framebuffer and packs the color of each one kept.
pub fn fragment_writes(width: usize, height: usize, frags: &[Fragment]) -> (writes: Vec<PixelWrite>)
    ensures
        writes@ == writes_of(width as int, height as int, frags@),
{
    let mut writes: Vec<PixelWrite> = Vec::new();
    let mut i: usize = 0;
    while i < frags.len()
        invariant
            i <= frags@.len(),
            writes@ == writes_of(width as int, height as int, frags@.take(i as int)),
        decreases frags@.len() - i,
    {
        let f = frags[i];
        assert(frags@.take(i + 1).drop_last() =~= frags@.take(i as int));
        assert(frags@.take(i + 1).last() == f);
        if 0 <= f.x && (f.x as usize) < width && 0 <= f.y && (f.y as usize) < height {
            writes.push(PixelWrite { x: f.x as usize, y: f.y as usize, color: f.color.to_hex() });
        }
        i = i + 1;
    }
    assert(frags@.take(frags@.len() as int) =~= frags@);
    writes
}

proof fn lemma_writes_of_append(width: int, height: int, s1: Seq<Fragment>, s2: Seq<Fragment>)
    ensures
        writes_of(width, height, s1 + s2) == writes_of(width, height, s1) + writes_of(width, height, s2),
    decreases s2.len(),
{
    if s2.len() == 0 {
        assert(s1 + s2 =~= s1);
        assert(writes_of(width, height, s1) + writes_of(width, height, s2) =~= writes_of(width, height, s1));
    } else {
        assert((s1 + s2).drop_last() =~= s1 + s2.drop_last());
        assert((s1 + s2).last() == s2.last());
        lemma_writes_of_append(width, height, s1, s2.drop_last());
        let w1 = writes_of(width, height, s1);
        let w2 = writes_of(width, height, s2.drop_last());
        assert((w1 + w2).push(write_of(s2.last())) =~= w1 + w2.push(write_of(s2.last())));
    }
}

/// The framebuffer writes of one frame over vertices already projected to the
/// screen: the vertices are grouped into triangles, each triangle's three edges
/// are rasterized, and each fragment inside the framebuffer becomes a write, in
/// order. No depth test is made: a later write to a pixel overrides an earlier one.
pub fn render_frame(width: usize, height: usize, vertex_array: &[ScreenVertex]) -> (writes: Vec<PixelWrite>)
    ensures
        writes@ == writes_of(width as int, height as int, frame_fragments(triangles(vertex_array@))),
{
    let tris = assemble_primitives(vertex_array);
    let mut writes: Vec<PixelWrite> = Vec::new();
    let mut i: usize = 0;
    while i < tris.len()
        invariant
            i <= tris@.len(),
            tris@ == triangles(vertex_array@),
            writes@ == writes_of(width as int, height as int, frame_fragments(tris@.take(i as int))),
        decreases tris@.len() - i,
    {
        let frags = rasterize_triangle(tris[i]);
        let mut more = fragment_writes(width, height, frags.as_slice());
        proof {
            assert(tris@.take(i + 1).drop_last() =~= tris@.take(i as int));
            assert(tris@.take(i + 1).last() == tris@[i as int]);
            lemma_writes_of_append(
                width as int,
                height as int,
                frame_fragments(tris@.take(i as int)),
                triangle_fragments(tris@[i as int]),
            );
        }
        writes.append(&mut more);
        i = i + 1;
    }
    assert(tris@.take(tris@.len() as int) =~= tris@);
    writes
}

/// Every write of a fragment sequence lies inside the framebuffer.
pub proof fn lemma_writes_in_bounds(width: int, height: int, frags: Seq<Fragment>)
    ensures
        forall|i: int| 0 <= i < writes_of(width, height, frags).len() ==>
            (#[trigger] writes_of(width, height, frags)[i]).x < width
                && writes_of(width, height, frags)[i].y < height,
    decreases frags.len(),
{
    if frags.len() > 0 {
        lemma_writes_in_bounds(width, height, frags.drop_last());
        let rest = writes_of(width, height, frags.drop_last());
        let f = frags.last();
        if in_bounds(width, height, f) {
            assert forall|i: int| 0 <= i < rest.len() + 1 implies
                (#[trigger] rest.push(write_of(f))[i]).x < width
                    && rest.push(write_of(f))[i].y < height by {
                if i < rest.len() {
                    assert(rest.push(write_of(f))[i] == rest[i]);
                }
            }
        }
    }
}

/// Every fragment inside the framebuffer is written.
pub proof fn lemma_in_bounds_written(width: int, height: int, frags: Seq<Fragment>, i: int)
    requires
        0 <= i < frags.len(),
        in_bounds(width, height, frags[i]),
    ensures
        writes_of(width, height, frags).contains(write_of(frags[i])),
    decreases frags.len(),
{
    let rest = writes_of(width, height, frags.drop_last());
    if i == frags.len() - 1 {
        assert(frags[i] == frags.last());
        assert(writes_of(width, height, frags).last() == write_of(frags[i]));
    } else {
        assert(frags.drop_last()[i] == frags[i]);
        lemma_in_bounds_written(width, height, frags.drop_last(), i);
        let j = choose|j: int| 0 <= j < rest.len() && rest[j] == write_of(frags[i]);
        if in_bounds(width, height, frags.last()) {
            assert(rest.push(write_of(frags.last()))[j] == rest[j]);
        }
    }
}

} // verus!
