//! The tiling layout engine: a pure function from the tree shape, the
//! per-child size ratios and the monitor viewports to absolute window
//! rectangles.
//!
//! A workspace or split container divides its rectangle along its tiling
//! direction among its tiling participants, by cumulative ratio
//! boundaries (`extent * presum / RATIO_UNIT`), so the slices partition
//! the extent exactly. Floating, fullscreen and minimized windows are
//! skipped: their rectangles come from separate placement state. The
//! result is a function of tree and viewports alone: recomputing it on
//! an unchanged tree yields the identical mapping.

use vstd::prelude::*;

use crate::geometry::{Rect, TilingDirection};
use crate::ratio::{lemma_ratio_sum_is_presum, ratio_presum};
use crate::tree::{
    has_tiling_child, lemma_wf_in_iff, ratio_sum, Container, ContainerKind, TilingState,
    RATIO_UNIT,
};

verus! {

/// One computed rectangle, keyed by container identifier.
#[derive(Clone, Copy, Debug, PartialEq, Eq, Structural)]
pub struct LayoutEntry {
    pub id: u64,
    pub rect: Rect,
}

/// Bounds under which all layout arithmetic stays exact: extents up to
/// 2^20 pixels, origins within 2^30 of zero.
pub open spec fn rect_ok(r: Rect) -> bool {
    &&& 0 <= r.width <= 0x0010_0000
    &&& 0 <= r.height <= 0x0010_0000
    &&& -0x4000_0000 <= r.x && r.x + r.width <= 0x4000_0000
    &&& -0x4000_0000 <= r.y && r.y + r.height <= 0x4000_0000
}

/// The sub-rectangle from offset `lo` to `hi` along direction `d`.
pub open spec fn spec_slice(r: Rect, d: TilingDirection, lo: int, hi: int) -> Rect {
    match d {
        TilingDirection::Horizontal => Rect {
            x: (r.x + lo) as i32,
            y: r.y,
            width: (hi - lo) as i32,
            height: r.height,
        },
        TilingDirection::Vertical => Rect {
            x: r.x,
            y: (r.y + lo) as i32,
            width: r.width,
            height: (hi - lo) as i32,
        },
    }
}

/// A rectangle shrunk by the gap on all four sides, left unchanged when
/// it is too small to shrink.
pub open spec fn spec_inset(r: Rect, g: i32) -> Rect {
    if r.width >= 2 * g && r.height >= 2 * g {
        Rect { x: (r.x + g) as i32, y: (r.y + g) as i32, width: (r.width - 2 * g) as i32, height: (
        r.height - 2 * g) as i32 }
    } else {
        r
    }
}

/// The extent of `r` along direction `d`.
pub open spec fn spec_extent(r: Rect, d: TilingDirection) -> int {
    match d {
        TilingDirection::Horizontal => r.width as int,
        TilingDirection::Vertical => r.height as int,
    }
}

/// The rectangles of one subtree laid out inside `r` with gap `g`.
pub open spec fn layout_node(c: Container, r: Rect, g: i32) -> Seq<LayoutEntry>
    decreases c, 1int,
{
    match c.kind {
        ContainerKind::Window { tiling_state, .. } => if tiling_state is Tiling {
            seq![LayoutEntry { id: c.id, rect: spec_inset(r, g) }]
        } else {
            Seq::empty()
        },
        ContainerKind::Root => layout_same(c.children@, r, g),
        ContainerKind::Monitor => layout_same(c.children@, r, g),
        ContainerKind::Workspace { direction, .. } => layout_group(c.children@, direction, r, g, 0),
        ContainerKind::Split { direction } => layout_group(c.children@, direction, r, g, 0),
    }
}

/// Every subtree of the list laid out in the same rectangle (monitors
/// hand their whole viewport to each workspace).
pub open spec fn layout_same(s: Seq<Container>, r: Rect, g: i32) -> Seq<LayoutEntry>
    decreases s, 0int,
{
    if s.len() == 0 {
        Seq::empty()
    } else {
        layout_node(s[0], r, g) + layout_same(s.drop_first(), r, g)
    }
}

/// Tiling participants of the list receive consecutive ratio slices of
/// `r` along `d`; `cum` is the ratio already allocated before them.
pub open spec fn layout_group(s: Seq<Container>, d: TilingDirection, r: Rect, g: i32, cum: int)
    -> Seq<LayoutEntry>
    decreases s, 0int,
{
    if s.len() == 0 {
        Seq::empty()
    } else {
        if s[0].participates_in_tiling() {
            let lo = spec_extent(r, d) * cum / (RATIO_UNIT as int);
            let hi = spec_extent(r, d) * (cum + s[0].ratio) / (RATIO_UNIT as int);
            layout_node(s[0], spec_slice(r, d, lo, hi), g) + layout_group(
                s.drop_first(),
                d,
                r,
                g,
                cum + s[0].ratio,
            )
        } else {
            layout_group(s.drop_first(), d, r, g, cum)
        }
    }
}

/// Monitors laid out in their own viewports, pairwise.
pub open spec fn layout_monitors(ms: Seq<Container>, viewports: Seq<Rect>, g: i32) -> Seq<
    LayoutEntry,
>
    decreases ms,
{
    if ms.len() == 0 || ms.len() != viewports.len() {
        Seq::empty()
    } else {
        layout_node(ms[0], viewports[0], g) + layout_monitors(
            ms.drop_first(),
            viewports.drop_first(),
            g,
        )
    }
}

/// The full layout: monitor `i` of the root is laid out in viewport `i`.
pub open spec fn spec_layout(root: Container, viewports: Seq<Rect>, g: i32) -> Seq<LayoutEntry> {
    layout_monitors(root.children@, viewports, g)
}

/// Splitting fact for `layout_same`.
proof fn lemma_layout_same_skip(s: Seq<Container>, i: int, r: Rect, g: i32)
    requires
        0 <= i < s.len(),
    ensures
        layout_same(s.skip(i), r, g) == layout_node(s[i], r, g) + layout_same(s.skip(i + 1), r, g),
{
    assert(s.skip(i).len() > 0);
    assert(s.skip(i)[0] == s[i]);
    assert(s.skip(i).drop_first() =~= s.skip(i + 1));
}

/// Splitting fact for `layout_group`.
proof fn lemma_layout_group_skip(
    s: Seq<Container>,
    i: int,
    d: TilingDirection,
    r: Rect,
    g: i32,
    cum: int,
)
    requires
        0 <= i < s.len(),
    ensures
        layout_group(s.skip(i), d, r, g, cum) == (if s[i].participates_in_tiling() {
            layout_node(
                s[i],
                spec_slice(
                    r,
                    d,
                    spec_extent(r, d) * cum / (RATIO_UNIT as int),
                    spec_extent(r, d) * (cum + s[i].ratio) / (RATIO_UNIT as int),
                ),
                g,
            ) + layout_group(s.skip(i + 1), d, r, g, cum + s[i].ratio)
        } else {
            layout_group(s.skip(i + 1), d, r, g, cum)
        }),
{
    assert(s.skip(i).len() > 0);
    assert(s.skip(i)[0] == s[i]);
    assert(s.skip(i).drop_first() =~= s.skip(i + 1));
}

/// Splitting fact for `layout_monitors`.
proof fn lemma_layout_monitors_skip(ms: Seq<Container>, vs: Seq<Rect>, i: int, g: i32)
    requires
        0 <= i < ms.len(),
        ms.len() == vs.len(),
    ensures
        layout_monitors(ms.skip(i), vs.skip(i), g) == layout_node(ms[i], vs[i], g)
            + layout_monitors(ms.skip(i + 1), vs.skip(i + 1), g),
{
    assert(ms.skip(i).len() > 0);
    assert(ms.skip(i)[0] == ms[i]);
    assert(vs.skip(i)[0] == vs[i]);
    assert(ms.skip(i).drop_first() =~= ms.skip(i + 1));
    assert(vs.skip(i).drop_first() =~= vs.skip(i + 1));
}

/// Prefix ratio sums are monotone and bounded by the full sum.
proof fn lemma_ratio_presum_mono(s: Seq<Container>, i: int, j: int)
    requires
        0 <= i <= j,
    ensures
        ratio_presum(s, i) <= ratio_presum(s, j),
    decreases j - i,
{
    if i < j {
        lemma_ratio_presum_mono(s, i, j - 1);
    }
}


/// Appends the layout of one subtree to `out`.
#[verifier::loop_isolation(false)]
fn layout_into(c: &Container, r: Rect, g: i32, out: &mut Vec<LayoutEntry>)
    requires
        c.wf(),
        rect_ok(r),
        0 <= g <= 1024,
    ensures
        final(out)@ == old(out)@ + layout_node(*c, r, g),
    decreases *c,
{
    proof {
        lemma_wf_in_iff(c.children@);
    }
    match c.kind {
        ContainerKind::Window { tiling_state, .. } => {
            if matches!(tiling_state, TilingState::Tiling) {
                let rect = if r.width >= 2 * g && r.height >= 2 * g {
                    Rect { x: r.x + g, y: r.y + g, width: r.width - 2 * g, height: r.height - 2
                        * g }
                } else {
                    r
                };
                out.push(LayoutEntry { id: c.id, rect });
                proof {
                    assert(final(out)@ =~= old(out)@ + layout_node(*c, r, g));
                }
            } else {
                proof {
                    assert(final(out)@ =~= old(out)@ + layout_node(*c, r, g));
                }
            }
        },
        ContainerKind::Root | ContainerKind::Monitor => {
            let n = c.children.len();
            let mut i: usize = 0;
            proof {
                assert(c.children@.skip(0) =~= c.children@);
                assert(old(out)@ + layout_same(c.children@, r, g) =~= out@ + layout_same(
                    c.children@.skip(0),
                    r,
                    g,
                ));
            }
            while i < n
                invariant
                    0 <= i <= n,
                    n == c.children@.len(),
                    old(out)@ + layout_same(c.children@, r, g) =~= out@ + layout_same(
                        c.children@.skip(i as int),
                        r,
                        g,
                    ),
                decreases n - i,
            {
                proof {
                    lemma_layout_same_skip(c.children@, i as int, r, g);
                }
                layout_into(&c.children[i], r, g, out);
                i += 1;
            }
            proof {
                assert(c.children@.skip(n as int) =~= Seq::<Container>::empty());
                assert(final(out)@ =~= old(out)@ + layout_node(*c, r, g));
            }
        },
        ContainerKind::Workspace { direction, .. } | ContainerKind::Split { direction } => {
            let d = direction;
            let n = c.children.len();
            let mut i: usize = 0;
            let mut cum: u32 = 0;
            let extent: i64 = match d {
                TilingDirection::Horizontal => r.width as i64,
                TilingDirection::Vertical => r.height as i64,
            };
            proof {
                assert(c.children@.skip(0) =~= c.children@);
            }
            while i < n
                invariant
                    0 <= i <= n,
                    n == c.children@.len(),
                    cum == ratio_presum(c.children@, i as int),
                    cum <= RATIO_UNIT,
                    old(out)@ + layout_group(c.children@, d, r, g, 0) =~= out@ + layout_group(
                        c.children@.skip(i as int),
                        d,
                        r,
                        g,
                        cum as int,
                    ),
                decreases n - i,
            {
                proof {
                    lemma_layout_group_skip(c.children@, i as int, d, r, g, cum as int);
                    assert(c.children@[i as int].wf());
                }
                if c.children[i].participates() {
                    let ratio = c.children[i].ratio;
                    proof {
                        assert(ratio_presum(c.children@, i as int + 1) == cum + ratio);
                        lemma_ratio_presum_mono(c.children@, i as int + 1, n as int);
                        lemma_ratio_sum_is_presum(c.children@);
                        assert(has_tiling_child(c.children@)) by {
                            assert(c.children@[i as int].participates_in_tiling());
                        }
                        assert(ratio_sum(c.children@) == RATIO_UNIT as int);
                        assert(cum + ratio <= RATIO_UNIT);
                        crate::ratio::lemma_boundary_bounds(
                            extent as int,
                            cum as int,
                            cum as int + ratio as int,
                            RATIO_UNIT as int,
                        );
                    }
                    let lo: i64 = extent * (cum as i64) / (RATIO_UNIT as i64);
                    let hi: i64 = extent * ((cum + ratio) as i64) / (RATIO_UNIT as i64);
                    let slice = match d {
                        TilingDirection::Horizontal => Rect {
                            x: r.x + lo as i32,
                            y: r.y,
                            width: (hi - lo) as i32,
                            height: r.height,
                        },
                        TilingDirection::Vertical => Rect {
                            x: r.x,
                            y: r.y + lo as i32,
                            width: r.width,
                            height: (hi - lo) as i32,
                        },
                    };
                    proof {
                        assert(slice == spec_slice(r, d, lo as int, hi as int));
                        assert(rect_ok(slice));
                    }
                    layout_into(&c.children[i], slice, g, out);
                    cum = cum + ratio;
                } else {
                    proof {
                        assert(ratio_presum(c.children@, i as int + 1) == cum);
                    }
                }
                i += 1;
            }
            proof {
                assert(c.children@.skip(n as int) =~= Seq::<Container>::empty());
                assert(final(out)@ =~= old(out)@ + layout_node(*c, r, g));
            }
        },
    }
}


/// Computes the full layout: the rectangle of every tiling window, one
/// monitor per viewport, inner gap `g`. The result is exactly
/// `spec_layout` of the tree and the viewports: a pure function, so
/// recomputation on an unchanged tree yields the identical mapping.
#[verifier::loop_isolation(false)]
pub fn compute_layout(root: &Container, viewports: &Vec<Rect>, g: i32) -> (r: Vec<LayoutEntry>)
    requires
        root.wf(),
        root.kind is Root,
        viewports@.len() == root.children@.len(),
        forall|i: int| 0 <= i < viewports@.len() ==> rect_ok(#[trigger] viewports@[i]),
        0 <= g <= 1024,
    ensures
        r@ == spec_layout(*root, viewports@, g),
{
    let mut out: Vec<LayoutEntry> = Vec::new();
    let n = root.children.len();
    let mut i: usize = 0;
    proof {
        lemma_wf_in_iff(root.children@);
        assert(root.children@.skip(0) =~= root.children@);
        assert(viewports@.skip(0) =~= viewports@);
        assert(out@ + layout_monitors(root.children@, viewports@, g) =~= out@ + layout_monitors(
            root.children@.skip(0),
            viewports@.skip(0),
            g,
        ));
    }
    while i < n
        invariant
            0 <= i <= n,
            n == root.children@.len(),
            n == viewports@.len(),
            Seq::<LayoutEntry>::empty() + layout_monitors(root.children@, viewports@, g) =~= out@
                + layout_monitors(
                root.children@.skip(i as int),
                viewports@.skip(i as int),
                g,
            ),
        decreases n - i,
    {
        proof {
            lemma_layout_monitors_skip(root.children@, viewports@, i as int, g);
            assert(root.children@[i as int].wf());
            assert(root.children@.skip(i as int).len() == viewports@.skip(i as int).len());
        }
        layout_into(&root.children[i], viewports[i], g, &mut out);
        i += 1;
    }
    proof {
        assert(root.children@.skip(n as int) =~= Seq::<Container>::empty());
        assert(out@ =~= spec_layout(*root, viewports@, g));
    }
    out
}

/// The layout engine is idempotent: it is specified as a pure function
/// of the tree and the viewports, so two runs on an unchanged tree and
/// unchanged viewports return one and the same rectangle mapping.
pub proof fn lemma_layout_idempotent(
    root: Container,
    viewports: Seq<Rect>,
    g: i32,
    r1: Seq<LayoutEntry>,
    r2: Seq<LayoutEntry>,
)
    requires
        r1 == spec_layout(root, viewports, g),
        r2 == spec_layout(root, viewports, g),
    ensures
        r1 == r2,
{
}

} // verus!
