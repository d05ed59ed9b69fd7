use vstd::prelude::*;

use crate::components::{pos_ok, WorldPos};
use crate::map::{tile_blocks_visibility, GameMap};

verus! {

/// Bound on ray coordinates; keeps every cross product inside `i64`.
pub const RAY_BOUND: i64 = 0x4000_0000;

/// A ray from the viewer, stored in doubled tile coordinates so that tile
/// corners (at half-tile offsets) are exact integers. The x coordinate is
/// never zero: corner rays always sit beside the vertical axis, and the
/// vertical axis itself is handled by splitting shadows.
#[derive(Copy, Clone, Eq, PartialEq, Structural, Hash, Debug)]
pub struct Ray {
    pub x: i64,
    pub y: i64,
}

pub open spec fn ray_wf(r: Ray) -> bool {
    r.x != 0 && -RAY_BOUND <= r.x <= RAY_BOUND && -RAY_BOUND <= r.y <= RAY_BOUND
}

/// The angular order of rays, clockwise starting just right of straight up:
/// the right half-plane (x > 0) comes first, then the left half-plane
/// (x < 0); within a half-plane rays are ordered by decreasing slope y/x,
/// compared exactly by cross-multiplication. Rays along the same direction
/// are equal in this order.
pub open spec fn ray_le(a: Ray, b: Ray) -> bool {
    if a.x > 0 && b.x < 0 {
        true
    } else if a.x < 0 && b.x > 0 {
        false
    } else {
        a.y * b.x >= b.y * a.x
    }
}

pub proof fn lemma_ray_le_refl(a: Ray)
    ensures
        ray_le(a, a),
{
}

pub proof fn lemma_ray_le_total(a: Ray, b: Ray)
    requires
        ray_wf(a),
        ray_wf(b),
    ensures
        ray_le(a, b) || ray_le(b, a),
{
}

pub proof fn lemma_ray_le_trans(a: Ray, b: Ray, c: Ray)
    requires
        ray_wf(a),
        ray_wf(b),
        ray_wf(c),
        ray_le(a, b),
        ray_le(b, c),
    ensures
        ray_le(a, c),
{
    if a.x > 0 && c.x < 0 {
    } else if a.x < 0 && c.x > 0 {
        // impossible: b would have to sit on both sides at once
        if b.x > 0 {
            assert(!ray_le(a, b));
        } else {
            assert(!ray_le(b, c));
        }
    } else if a.x > 0 && b.x < 0 {
        assert(!ray_le(a, b) || c.x < 0);
        assert(c.x > 0 ==> false);
    } else {
        if a.x > 0 {
            assert(b.x > 0 && c.x > 0);
            assert(a.y * c.x >= c.y * a.x) by (nonlinear_arith)
                requires
                    a.y * b.x >= b.y * a.x,
                    b.y * c.x >= c.y * b.x,
                    a.x > 0,
                    b.x > 0,
                    c.x > 0,
            ;
        } else {
            assert(a.x < 0);
            if b.x > 0 {
                assert(!ray_le(a, b));
            }
            assert(b.x < 0 && c.x < 0);
            assert(a.y * c.x >= c.y * a.x) by (nonlinear_arith)
                requires
                    a.y * b.x >= b.y * a.x,
                    b.y * c.x >= c.y * b.x,
                    a.x < 0,
                    b.x < 0,
                    c.x < 0,
            ;
        }
    }
}

/// Whether ray `a` comes at-or-before ray `b` in the clockwise order.
fn ray_le_exec(a: &Ray, b: &Ray) -> (r: bool)
    requires
        ray_wf(*a),
        ray_wf(*b),
    ensures
        r == ray_le(*a, *b),
{
    proof {
        lemma_cross_product_bounded(*a, *b);
    }
    if a.x > 0 && b.x < 0 {
        true
    } else if a.x < 0 && b.x > 0 {
        false
    } else {
        a.y * b.x >= b.y * a.x
    }
}

proof fn lemma_cross_product_bounded(a: Ray, b: Ray)
    requires
        ray_wf(a),
        ray_wf(b),
    ensures
        -0x4000_0000_0000_0000 <= a.y * b.x <= 0x4000_0000_0000_0000,
        -0x4000_0000_0000_0000 <= b.y * a.x <= 0x4000_0000_0000_0000,
{
    assert(-0x4000_0000_0000_0000 <= a.y * b.x <= 0x4000_0000_0000_0000) by (nonlinear_arith)
        requires
            -0x4000_0000 <= a.y <= 0x4000_0000,
            -0x4000_0000 <= b.x <= 0x4000_0000,
    ;
    assert(-0x4000_0000_0000_0000 <= b.y * a.x <= 0x4000_0000_0000_0000) by (nonlinear_arith)
        requires
            -0x4000_0000 <= b.y <= 0x4000_0000,
            -0x4000_0000 <= a.x <= 0x4000_0000,
    ;
}

/// One endpoint of a shadow interval: the reference axis seen from its
/// clockwise start (`Bottom`), a concrete boundary ray, or the reference
/// axis seen from its counter-clockwise end (`Top`).
#[derive(Copy, Clone, Eq, PartialEq, Structural, Debug)]
pub enum ShadowEnd {
    Bottom,
    Edge(Ray),
    Top,
}

pub open spec fn end_wf(e: ShadowEnd) -> bool {
    match e {
        ShadowEnd::Edge(r) => ray_wf(r),
        _ => true,
    }
}

pub open spec fn end_le(a: ShadowEnd, b: ShadowEnd) -> bool {
    match a {
        ShadowEnd::Bottom => true,
        ShadowEnd::Top => b == ShadowEnd::Top,
        ShadowEnd::Edge(x) => match b {
            ShadowEnd::Bottom => false,
            ShadowEnd::Top => true,
            ShadowEnd::Edge(y) => ray_le(x, y),
        },
    }
}

/// Strictly before, in the derived sense of the total preorder.
pub open spec fn end_lt(a: ShadowEnd, b: ShadowEnd) -> bool {
    !end_le(b, a)
}

pub proof fn lemma_end_le_refl(a: ShadowEnd)
    ensures
        end_le(a, a),
{
}

pub proof fn lemma_end_le_total(a: ShadowEnd, b: ShadowEnd)
    requires
        end_wf(a),
        end_wf(b),
    ensures
        end_le(a, b) || end_le(b, a),
{
}

pub proof fn lemma_end_le_trans(a: ShadowEnd, b: ShadowEnd, c: ShadowEnd)
    requires
        end_wf(a),
        end_wf(b),
        end_wf(c),
        end_le(a, b),
        end_le(b, c),
    ensures
        end_le(a, c),
{
    match (a, b, c) {
        (ShadowEnd::Edge(x), ShadowEnd::Edge(y), ShadowEnd::Edge(z)) => {
            lemma_ray_le_trans(x, y, z);
        },
        _ => {},
    }
}

pub open spec fn end_min(a: ShadowEnd, b: ShadowEnd) -> ShadowEnd {
    if end_le(a, b) {
        a
    } else {
        b
    }
}

pub open spec fn end_max(a: ShadowEnd, b: ShadowEnd) -> ShadowEnd {
    if end_le(a, b) {
        b
    } else {
        a
    }
}

/// A radial shadow: an angular interval of directions known to be blocked.
/// The reference axis is straight up; an interval may be closed against the
/// axis on its clockwise side (`LeftClosed`), on its counter-clockwise side
/// (`RightClosed`), on both (`FullCircle`), or on neither (`Open`).
#[derive(Copy, Clone, Eq, PartialEq, Structural, Debug)]
pub enum RadialShadow {
    FullCircle,
    LeftClosed { end: Ray },
    RightClosed { start: Ray },
    Open { start: Ray, end: Ray },
}

/// Where the shadow begins, in the clockwise order.
pub open spec fn sh_lo(s: RadialShadow) -> ShadowEnd {
    match s {
        RadialShadow::FullCircle => ShadowEnd::Bottom,
        RadialShadow::LeftClosed { end } => ShadowEnd::Bottom,
        RadialShadow::RightClosed { start } => ShadowEnd::Edge(start),
        RadialShadow::Open { start, end } => ShadowEnd::Edge(start),
    }
}

/// Where the shadow ends, in the clockwise order.
pub open spec fn sh_hi(s: RadialShadow) -> ShadowEnd {
    match s {
        RadialShadow::FullCircle => ShadowEnd::Top,
        RadialShadow::LeftClosed { end } => ShadowEnd::Edge(end),
        RadialShadow::RightClosed { start } => ShadowEnd::Top,
        RadialShadow::Open { start, end } => ShadowEnd::Edge(end),
    }
}

pub open spec fn sh_wf(s: RadialShadow) -> bool {
    end_wf(sh_lo(s)) && end_wf(sh_hi(s)) && end_le(sh_lo(s), sh_hi(s))
}

/// Interval containment at the endpoint level: `a` spans everything `b`
/// spans.
pub open spec fn sh_contains(a: RadialShadow, b: RadialShadow) -> bool {
    end_le(sh_lo(a), sh_lo(b)) && end_le(sh_hi(b), sh_hi(a))
}

/// Interval overlap at the endpoint level: the spans touch or share ground.
pub open spec fn sh_overlaps(a: RadialShadow, b: RadialShadow) -> bool {
    end_le(sh_lo(a), sh_hi(b)) && end_le(sh_lo(b), sh_hi(a))
}

impl RadialShadow {
    /// Whether this shadow begins strictly before the other one.
    fn starts_strictly_before(&self, other: &RadialShadow) -> (r: bool)
        requires
            sh_wf(*self),
            sh_wf(*other),
        ensures
            r == end_lt(sh_lo(*self), sh_lo(*other)),
    {
        match *self {
            RadialShadow::FullCircle | RadialShadow::LeftClosed { .. } => match *other {
                RadialShadow::RightClosed { .. } | RadialShadow::Open { .. } => true,
                _ => false,
            },
            RadialShadow::RightClosed { start: my_left } | RadialShadow::Open {
                start: my_left,
                end: _,
            } => match *other {
                RadialShadow::RightClosed { start: their_left } | RadialShadow::Open {
                    start: their_left,
                    end: _,
                } => !ray_le_exec(&their_left, &my_left),
                _ => false,
            },
        }
    }

    /// Whether this shadow completely covers the other.
    fn contains(&self, other: &RadialShadow) -> (r: bool)
        requires
            sh_wf(*self),
            sh_wf(*other),
        ensures
            r == sh_contains(*self, *other),
    {
        match *self {
            RadialShadow::FullCircle => true,
            RadialShadow::LeftClosed { end: my_end } => match *other {
                RadialShadow::FullCircle => false,
                RadialShadow::RightClosed { .. } => false,
                RadialShadow::LeftClosed { end: their_end } => ray_le_exec(&their_end, &my_end),
                RadialShadow::Open { start: _, end: their_end } => ray_le_exec(
                    &their_end,
                    &my_end,
                ),
            },
            RadialShadow::RightClosed { start: my_start } => match *other {
                RadialShadow::FullCircle => false,
                RadialShadow::LeftClosed { .. } => false,
                RadialShadow::RightClosed { start: their_start } => ray_le_exec(
                    &my_start,
                    &their_start,
                ),
                RadialShadow::Open { start: their_start, end: _ } => ray_le_exec(
                    &my_start,
                    &their_start,
                ),
            },
            RadialShadow::Open { start: my_start, end: my_end } => match *other {
                RadialShadow::FullCircle => false,
                RadialShadow::LeftClosed { .. } => false,
                RadialShadow::RightClosed { .. } => false,
                RadialShadow::Open { start: their_start, end: their_end } => ray_le_exec(
                    &my_start,
                    &their_start,
                ) && ray_le_exec(&their_end, &my_end),
            },
        }
    }

    /// Whether this shadow and the other touch or share any span.
    fn overlaps(&self, other: &RadialShadow) -> (r: bool)
        requires
            sh_wf(*self),
            sh_wf(*other),
        ensures
            r == sh_overlaps(*self, *other),
    {
        match *self {
            RadialShadow::FullCircle => true,
            RadialShadow::LeftClosed { end: my_end } => match *other {
                RadialShadow::FullCircle => true,
                RadialShadow::RightClosed { start: their_start } => ray_le_exec(
                    &their_start,
                    &my_end,
                ),
                RadialShadow::LeftClosed { end: _ } => true,
                RadialShadow::Open { start: their_start, end: _ } => ray_le_exec(
                    &their_start,
                    &my_end,
                ),
            },
            RadialShadow::RightClosed { start: my_start } => match *other {
                RadialShadow::FullCircle => true,
                RadialShadow::LeftClosed { end: their_end } => ray_le_exec(&my_start, &their_end),
                RadialShadow::RightClosed { start: _ } => true,
                RadialShadow::Open { start: _, end: their_end } => ray_le_exec(
                    &my_start,
                    &their_end,
                ),
            },
            RadialShadow::Open { start: my_start, end: my_end } => match *other {
                RadialShadow::FullCircle => true,
                RadialShadow::LeftClosed { end: their_end } => ray_le_exec(&my_start, &their_end),
                RadialShadow::RightClosed { start: their_start } => ray_le_exec(
                    &their_start,
                    &my_end,
                ),
                RadialShadow::Open { start: their_start, end: their_end } => ray_le_exec(
                    &my_start,
                    &their_end,
                ) && ray_le_exec(&their_start, &my_end),
            },
        }
    }

    /// Grow this shadow to span the other as well. The result runs from the
    /// earlier of the two starts to the later of the two ends; if the two
    /// did not overlap, the gap between them is swallowed too.
    fn absorb(&mut self, other: RadialShadow)
        requires
            sh_wf(*old(self)),
            sh_wf(other),
        ensures
            sh_lo(*final(self)) == end_min(sh_lo(*old(self)), sh_lo(other)),
            sh_hi(*final(self)) == end_max(sh_hi(*old(self)), sh_hi(other)),
            sh_wf(*final(self)),
    {
        proof {
            lemma_end_le_total(sh_lo(*self), sh_lo(other));
            lemma_end_le_total(sh_hi(*self), sh_hi(other));
            lemma_end_le_total(sh_lo(*self), sh_hi(other));
            lemma_end_le_total(sh_lo(other), sh_hi(*self));
            lemma_end_le_trans(end_min(sh_lo(*self), sh_lo(other)), sh_lo(*self), sh_hi(*self));
            lemma_end_le_trans(sh_lo(*self), sh_hi(*self), end_max(sh_hi(*self), sh_hi(other)));
            lemma_end_le_trans(
                end_min(sh_lo(*self), sh_lo(other)),
                sh_lo(other),
                sh_hi(other),
            );
            lemma_end_le_trans(sh_lo(other), sh_hi(other), end_max(sh_hi(*self), sh_hi(other)));
        }
        *self = match *self {
            RadialShadow::FullCircle => RadialShadow::FullCircle,
            RadialShadow::LeftClosed { end: my_end } => match other {
                RadialShadow::FullCircle => RadialShadow::FullCircle,
                RadialShadow::RightClosed { .. } => RadialShadow::FullCircle,
                RadialShadow::LeftClosed { end: their_end } => RadialShadow::LeftClosed {
                    end: if ray_le_exec(&my_end, &their_end) {
                        their_end
                    } else {
                        my_end
                    },
                },
                RadialShadow::Open { start: _, end: their_end } => RadialShadow::LeftClosed {
                    end: if ray_le_exec(&my_end, &their_end) {
                        their_end
                    } else {
                        my_end
                    },
                },
            },
            RadialShadow::RightClosed { start: my_start } => match other {
                RadialShadow::FullCircle => RadialShadow::FullCircle,
                RadialShadow::LeftClosed { .. } => RadialShadow::FullCircle,
                RadialShadow::RightClosed { start: their_start } => RadialShadow::RightClosed {
                    start: if ray_le_exec(&my_start, &their_start) {
                        my_start
                    } else {
                        their_start
                    },
                },
                RadialShadow::Open { start: their_start, end: _ } => RadialShadow::RightClosed {
                    start: if ray_le_exec(&my_start, &their_start) {
                        my_start
                    } else {
                        their_start
                    },
                },
            },
            RadialShadow::Open { start: my_start, end: my_end } => match other {
                RadialShadow::FullCircle => RadialShadow::FullCircle,
                RadialShadow::LeftClosed { end: their_end } => RadialShadow::LeftClosed {
                    end: if ray_le_exec(&my_end, &their_end) {
                        their_end
                    } else {
                        my_end
                    },
                },
                RadialShadow::RightClosed { start: their_start } => RadialShadow::RightClosed {
                    start: if ray_le_exec(&my_start, &their_start) {
                        my_start
                    } else {
                        their_start
                    },
                },
                RadialShadow::Open { start: their_start, end: their_end } => RadialShadow::Open {
                    start: if ray_le_exec(&my_start, &their_start) {
                        my_start
                    } else {
                        their_start
                    },
                    end: if ray_le_exec(&my_end, &their_end) {
                        their_end
                    } else {
                        my_end
                    },
                },
            },
        };
    }
}

pub proof fn lemma_end_lt_implies_le(a: ShadowEnd, b: ShadowEnd)
    requires
        end_wf(a),
        end_wf(b),
        end_lt(a, b),
    ensures
        end_le(a, b),
{
    lemma_end_le_total(a, b);
}

pub proof fn lemma_end_lt_le_trans(a: ShadowEnd, b: ShadowEnd, c: ShadowEnd)
    requires
        end_wf(a),
        end_wf(b),
        end_wf(c),
        end_lt(a, b),
        end_le(b, c),
    ensures
        end_lt(a, c),
{
    if end_le(c, a) {
        lemma_end_le_trans(b, c, a);
    }
}

pub proof fn lemma_end_le_lt_trans(a: ShadowEnd, b: ShadowEnd, c: ShadowEnd)
    requires
        end_wf(a),
        end_wf(b),
        end_wf(c),
        end_le(a, b),
        end_lt(b, c),
    ensures
        end_lt(a, c),
{
    if end_le(c, a) {
        lemma_end_le_trans(c, a, b);
    }
}

pub proof fn lemma_contains_refl(a: RadialShadow)
    requires
        sh_wf(a),
    ensures
        sh_contains(a, a),
{
    lemma_end_le_refl(sh_lo(a));
    lemma_end_le_refl(sh_hi(a));
}

pub proof fn lemma_contains_trans(a: RadialShadow, b: RadialShadow, c: RadialShadow)
    requires
        sh_wf(a),
        sh_wf(b),
        sh_wf(c),
        sh_contains(a, b),
        sh_contains(b, c),
    ensures
        sh_contains(a, c),
{
    lemma_end_le_trans(sh_lo(a), sh_lo(b), sh_lo(c));
    lemma_end_le_trans(sh_hi(c), sh_hi(b), sh_hi(a));
}

/// A shadow built as the min-start/max-end envelope of two overlapping
/// shadows covers nothing beyond the two: any ray it covers was covered by
/// one of them.
pub proof fn lemma_union_covers(a: RadialShadow, b: RadialShadow, u: RadialShadow, r: Ray)
    requires
        sh_wf(a),
        sh_wf(b),
        ray_wf(r),
        sh_overlaps(a, b),
        sh_lo(u) == end_min(sh_lo(a), sh_lo(b)),
        sh_hi(u) == end_max(sh_hi(a), sh_hi(b)),
        covers(u, r),
    ensures
        covers(a, r) || covers(b, r),
{
    reveal(covers);
    let e = ShadowEnd::Edge(r);
    lemma_end_le_total(sh_lo(a), sh_lo(b));
    lemma_end_le_total(sh_hi(a), sh_hi(b));
    lemma_end_le_total(e, sh_hi(a));
    lemma_end_le_total(e, sh_hi(b));
    lemma_end_le_total(sh_lo(a), e);
    lemma_end_le_total(sh_lo(b), e);
    if end_le(sh_lo(a), e) && end_le(e, sh_hi(a)) {
    } else if end_le(sh_lo(b), e) && end_le(e, sh_hi(b)) {
    } else if end_le(sh_lo(a), e) {
        // the ray sits above a's end, so it must fall inside b
        assert(end_le(e, sh_hi(b)));
        assert(end_le(sh_lo(b), sh_hi(a)));
        lemma_end_le_trans(sh_lo(b), sh_hi(a), e);
    } else {
        assert(end_le(sh_lo(b), e));
        assert(end_le(e, sh_hi(a)));
        assert(end_le(sh_lo(a), sh_hi(b)));
        lemma_end_le_trans(sh_lo(a), sh_hi(b), e);
    }
}

/// Whether a shadow covers the direction of a ray: the ray falls between
/// the shadow's two ends in the clockwise order.
#[verifier::opaque]
pub open spec fn covers(s: RadialShadow, r: Ray) -> bool {
    end_le(sh_lo(s), ShadowEnd::Edge(r)) && end_le(ShadowEnd::Edge(r), sh_hi(s))
}

/// Containment at the endpoint level really is containment: every ray the
/// inner shadow covers, the outer shadow covers too.
pub proof fn lemma_contains_covers(a: RadialShadow, b: RadialShadow, r: Ray)
    requires
        sh_wf(a),
        sh_wf(b),
        ray_wf(r),
        sh_contains(a, b),
        covers(b, r),
    ensures
        covers(a, r),
{
    reveal(covers);
    lemma_end_le_trans(sh_lo(a), sh_lo(b), ShadowEnd::Edge(r));
    lemma_end_le_trans(ShadowEnd::Edge(r), sh_hi(b), sh_hi(a));
}

/// Shadows that do not overlap at the endpoint level cover no common ray.
pub proof fn lemma_disjoint_shadows_share_no_ray(a: RadialShadow, b: RadialShadow, r: Ray)
    requires
        sh_wf(a),
        sh_wf(b),
        ray_wf(r),
        !sh_overlaps(a, b),
    ensures
        !(covers(a, r) && covers(b, r)),
{
    reveal(covers);
    if covers(a, r) && covers(b, r) {
        lemma_end_le_trans(sh_lo(a), ShadowEnd::Edge(r), sh_hi(b));
        lemma_end_le_trans(sh_lo(b), ShadowEnd::Edge(r), sh_hi(a));
    }
}

/// Every ray the shadow `m` covers was covered by `shadow` or by one of the
/// entries of `orig`: merging introduces no new blocked direction.
pub open spec fn no_new_rays(m: RadialShadow, shadow: RadialShadow, orig: Seq<RadialShadow>) -> bool {
    forall|r: Ray|
        ray_wf(r) && #[trigger] covers(m, r) ==> covers(shadow, r) || exists|i: int|
            0 <= i < orig.len() && #[trigger] covers(orig[i], r)
}

/// Every ray the shadow `e` covers was covered by some entry of `orig`.
pub open spec fn entry_from(orig: Seq<RadialShadow>, e: RadialShadow) -> bool {
    forall|r: Ray|
        ray_wf(r) && #[trigger] covers(e, r) ==> exists|i: int|
            0 <= i < orig.len() && #[trigger] covers(orig[i], r)
}

pub proof fn lemma_entry_from_member(orig: Seq<RadialShadow>, i: int)
    requires
        0 <= i < orig.len(),
    ensures
        entry_from(orig, orig[i]),
{
    assert forall|r: Ray| ray_wf(r) && #[trigger] covers(orig[i], r) implies exists|i2: int|
        0 <= i2 < orig.len() && #[trigger] covers(orig[i2], r) by {
        assert(covers(orig[i], r));
    }
}

pub proof fn lemma_entry_from_no_new(e: RadialShadow, shadow: RadialShadow, orig: Seq<RadialShadow>)
    requires
        entry_from(orig, e),
    ensures
        no_new_rays(e, shadow, orig),
{
    assert forall|r: Ray| ray_wf(r) && #[trigger] covers(e, r) implies covers(shadow, r)
        || exists|i: int| 0 <= i < orig.len() && #[trigger] covers(orig[i], r) by {
        assert(covers(e, r));
    }
}

/// The shadow line: all angular ranges already known to be blocked, kept as
/// a list of shadows sorted by start (latest start first) in which each
/// entry ends strictly before the next one begins, so no two entries
/// overlap.
pub struct RadialShadowLine {
    pub shadows: Vec<RadialShadow>,
}

/// The invariant of the shadow line: every entry is a well-formed interval,
/// and each entry ends strictly before every earlier entry starts. This is
/// exactly "sorted with no two entries overlapping".
pub open spec fn line_wf(s: Seq<RadialShadow>) -> bool {
    &&& forall|i: int| 0 <= i < s.len() ==> sh_wf(#[trigger] s[i])
    &&& forall|i: int, j: int|
        0 <= i < j < s.len() ==> end_lt(sh_hi(#[trigger] s[j]), sh_lo(#[trigger] s[i]))
}

/// Sortedness and non-overlap follow from the line invariant: distinct
/// entries never overlap.
pub proof fn lemma_line_wf_no_overlap(s: Seq<RadialShadow>, i: int, j: int)
    requires
        line_wf(s),
        0 <= i < j < s.len(),
    ensures
        !sh_overlaps(s[i], s[j]),
        !sh_overlaps(s[j], s[i]),
{
}

impl RadialShadowLine {
    pub open spec fn wf(self) -> bool {
        line_wf(self.shadows@)
    }

    /// Construct a new, empty shadow line.
    pub fn new() -> (r: Self)
        ensures
            r.wf(),
            r.shadows@.len() == 0,
    {
        RadialShadowLine { shadows: Vec::new() }
    }

    /// Determines whether a projected shadow is completely covered by some
    /// entry of this shadow line.
    pub fn is_in_shadow(&self, projection: &RadialShadow) -> (r: bool)
        requires
            self.wf(),
            sh_wf(*projection),
        ensures
            r == exists|i: int|
                0 <= i < self.shadows@.len() && sh_contains(
                    #[trigger] self.shadows@[i],
                    *projection,
                ),
    {
        let n = self.shadows.len();
        let mut i: usize = 0;
        while i < n
            invariant
                self.wf(),
                sh_wf(*projection),
                n == self.shadows@.len(),
                i <= n,
                forall|j: int| 0 <= j < i ==> !sh_contains(#[trigger] self.shadows@[j], *projection),
            decreases n - i,
        {
            if self.shadows[i].contains(projection) {
                proof {
                    assert(sh_contains(self.shadows@[i as int], *projection));
                }
                return true;
            }
            i += 1;
        }
        false
    }

    /// Determine if this shadow line covers the full circle (a useful early
    /// stopping condition).
    pub fn is_full_shadow(&self) -> (r: bool)
        ensures
            r == (self.shadows@.len() == 1 && self.shadows@[0] == RadialShadow::FullCircle),
    {
        self.shadows.len() == 1 && matches!(self.shadows[0], RadialShadow::FullCircle)
    }

    /// Adjust the shadow line to cover the given shadow as well: the shadow
    /// is slotted into the sorted list, absorbing and collapsing any
    /// entries it overlaps, so that the invariant is re-established. Every
    /// range covered before, and the new shadow's range, is covered by an
    /// entry of the result.
    #[verifier::rlimit(100)]
    pub fn add(&mut self, shadow: RadialShadow)
        requires
            old(self).wf(),
            sh_wf(shadow),
        ensures
            final(self).wf(),
            final(self).shadows@.len() >= 1,
            forall|i: int|
                0 <= i < old(self).shadows@.len() ==> exists|j: int|
                    0 <= j < final(self).shadows@.len() && sh_contains(
                        final(self).shadows@[j],
                        #[trigger] old(self).shadows@[i],
                    ),
            exists|j: int|
                0 <= j < final(self).shadows@.len() && sh_contains(
                    #[trigger] final(self).shadows@[j],
                    shadow,
                ),
            forall|j: int|
                0 <= j < final(self).shadows@.len() ==> no_new_rays(
                    #[trigger] final(self).shadows@[j],
                    shadow,
                    old(self).shadows@,
                ),
    {
        let ghost orig = self.shadows@;
        let mut merged = shadow;
        let n = self.shadows.len();

        // First, figure out where to slot the new shadow: before the first
        // entry that starts strictly before it.
        let mut index: usize = 0;
        while index < n && !self.shadows[index].starts_strictly_before(&merged)
            invariant
                self.wf(),
                sh_wf(merged),
                merged == shadow,
                n == self.shadows@.len(),
                index <= n,
                forall|j: int|
                    0 <= j < index ==> end_le(sh_lo(merged), sh_lo(#[trigger] self.shadows@[j])),
            decreases n - index,
        {
            proof {
                lemma_end_le_total(sh_lo(self.shadows@[index as int]), sh_lo(merged));
            }
            index += 1;
        }
        proof {
            assert forall|j: int|
                index <= j < self.shadows@.len() implies end_lt(
                sh_lo(#[trigger] self.shadows@[j]),
                sh_lo(merged),
            ) by {
                if j > index {
                    lemma_end_le_lt_trans(
                        sh_lo(self.shadows@[j]),
                        sh_hi(self.shadows@[j]),
                        sh_lo(self.shadows@[index as int]),
                    );
                    lemma_end_lt_le_trans(
                        sh_lo(self.shadows@[j]),
                        sh_lo(self.shadows@[index as int]),
                        sh_lo(merged),
                    );
                    assert(end_le(sh_lo(self.shadows@[index as int]), sh_lo(merged))) by {
                        lemma_end_lt_implies_le(
                            sh_lo(self.shadows@[index as int]),
                            sh_lo(merged),
                        );
                    }
                }
            }
            lemma_contains_refl(shadow);
            assert forall|j: int| 0 <= j < self.shadows@.len() implies entry_from(
                orig,
                #[trigger] self.shadows@[j],
            ) by {
                assert(self.shadows@[j] == orig[j]);
                lemma_entry_from_member(orig, j);
            }
            assert(no_new_rays(merged, shadow, orig)) by {
                assert forall|r: Ray| ray_wf(r) && #[trigger] covers(merged, r) implies covers(
                    shadow,
                    r,
                ) || exists|i: int|
                    0 <= i < orig.len() && #[trigger] covers(orig[i], r) by {}
            }
        }

        // As long as we overlap with the entry to the left, absorb it into
        // the new shadow and drop it from the list.
        while index > 0 && self.shadows[index - 1].overlaps(&merged)
            invariant
                self.wf(),
                line_wf(orig),
                sh_wf(merged),
                sh_wf(shadow),
                index <= self.shadows@.len(),
                sh_lo(merged) == sh_lo(shadow),
                sh_contains(merged, shadow),
                forall|j: int|
                    0 <= j < index ==> end_le(sh_lo(merged), sh_lo(#[trigger] self.shadows@[j])),
                forall|j: int|
                    index <= j < self.shadows@.len() ==> end_lt(
                        sh_lo(#[trigger] self.shadows@[j]),
                        sh_lo(merged),
                    ),
                forall|i: int|
                    0 <= i < orig.len() ==> (exists|j: int|
                        0 <= j < self.shadows@.len() && #[trigger] self.shadows@[j] == orig[i])
                        || sh_contains(merged, #[trigger] orig[i]),
                forall|j: int|
                    0 <= j < self.shadows@.len() ==> entry_from(
                        orig,
                        #[trigger] self.shadows@[j],
                    ),
                no_new_rays(merged, shadow, orig),
            decreases index,
        {
            let absorbed = self.shadows[index - 1];
            let ghost m_before = merged;
            merged.absorb(absorbed);
            index -= 1;
            let ghost pre = self.shadows@;
            self.shadows.remove(index);
            proof {
                let idx = index as int;
                // the merged shadow keeps its start: the absorbed entry
                // starts at-or-after it
                assert(end_le(sh_lo(m_before), sh_lo(absorbed)));
                assert(sh_lo(merged) == sh_lo(m_before));
                assert(sh_contains(merged, absorbed)) by {
                    lemma_end_le_total(sh_hi(m_before), sh_hi(absorbed));
                }
                assert(sh_contains(merged, m_before)) by {
                    lemma_end_le_refl(sh_lo(m_before));
                    lemma_end_le_total(sh_hi(m_before), sh_hi(absorbed));
                }
                lemma_contains_trans(merged, m_before, shadow);
                assert(sh_wf(merged));
                assert forall|j: int| 0 <= j < self.shadows@.len() implies #[trigger] self.shadows@[j]
                    == pre[if j < idx {
                    j
                } else {
                    j + 1
                }] by {}
                assert(line_wf(self.shadows@));
                assert forall|j: int|
                    idx <= j < self.shadows@.len() implies end_lt(
                    sh_lo(#[trigger] self.shadows@[j]),
                    sh_lo(merged),
                ) by {
                    assert(self.shadows@[j] == pre[j + 1]);
                }
                assert forall|i: int|
                    0 <= i < orig.len() implies (exists|j: int|
                    0 <= j < self.shadows@.len() && #[trigger] self.shadows@[j] == orig[i])
                    || sh_contains(merged, #[trigger] orig[i]) by {
                    if sh_contains(m_before, orig[i]) {
                        lemma_contains_trans(merged, m_before, orig[i]);
                    } else {
                        let j = choose|j: int|
                            0 <= j < pre.len() && #[trigger] pre[j] == orig[i];
                        if j == idx {
                            assert(sh_contains(merged, orig[i]));
                        } else if j < idx {
                            assert(self.shadows@[j] == orig[i]);
                        } else {
                            assert(self.shadows@[j - 1] == orig[i]);
                        }
                    }
                }
                assert forall|j: int| 0 <= j < self.shadows@.len() implies entry_from(
                    orig,
                    #[trigger] self.shadows@[j],
                ) by {
                    let jp = if j < idx {
                        j
                    } else {
                        j + 1
                    };
                    assert(self.shadows@[j] == pre[jp]);
                    assert(entry_from(orig, pre[jp]));
                }
                assert(pre[idx] == absorbed);
                assert(entry_from(orig, absorbed));
                assert(no_new_rays(merged, shadow, orig)) by {
                    assert forall|r: Ray| ray_wf(r) && #[trigger] covers(merged, r) implies covers(
                        shadow,
                        r,
                    ) || exists|i: int|
                        0 <= i < orig.len() && #[trigger] covers(orig[i], r) by {
                        lemma_union_covers(m_before, absorbed, merged, r);
                    }
                }
            }
        }
        proof {
            // the left neighbour, if any, now sits strictly above the
            // merged shadow
            if index > 0 {
                let l = self.shadows@[index as int - 1];
                assert(!sh_overlaps(l, merged));
                assert(end_le(sh_lo(merged), sh_hi(l))) by {
                    lemma_end_le_trans(sh_lo(merged), sh_lo(l), sh_hi(l));
                }
                assert(end_lt(sh_hi(merged), sh_lo(l)));
            }
            assert forall|j: int| 0 <= j < index implies end_lt(
                sh_hi(merged),
                sh_lo(#[trigger] self.shadows@[j]),
            ) by {
                let l = self.shadows@[index as int - 1];
                if j < index - 1 {
                    lemma_end_lt_le_trans(sh_hi(merged), sh_lo(l), sh_hi(l));
                    lemma_end_lt_le_trans(sh_hi(merged), sh_hi(l), sh_lo(self.shadows@[j]));
                    assert(end_le(sh_hi(l), sh_lo(self.shadows@[j]))) by {
                        lemma_end_lt_implies_le(sh_hi(l), sh_lo(self.shadows@[j]));
                    }
                }
            }
        }

        // As long as we overlap with the entry to the right, absorb it too.
        while index < self.shadows.len() && self.shadows[index].overlaps(&merged)
            invariant
                self.wf(),
                line_wf(orig),
                sh_wf(merged),
                sh_wf(shadow),
                index <= self.shadows@.len(),
                sh_contains(merged, shadow),
                forall|j: int|
                    0 <= j < index ==> end_lt(
                        sh_hi(merged),
                        sh_lo(#[trigger] self.shadows@[j]),
                    ),
                forall|j: int|
                    index <= j < self.shadows@.len() ==> end_lt(
                        sh_lo(#[trigger] self.shadows@[j]),
                        sh_lo(merged),
                    ),
                forall|i: int|
                    0 <= i < orig.len() ==> (exists|j: int|
                        0 <= j < self.shadows@.len() && #[trigger] self.shadows@[j] == orig[i])
                        || sh_contains(merged, #[trigger] orig[i]),
                forall|j: int|
                    0 <= j < self.shadows@.len() ==> entry_from(
                        orig,
                        #[trigger] self.shadows@[j],
                    ),
                no_new_rays(merged, shadow, orig),
            decreases self.shadows@.len() - index,
        {
            let absorbed = self.shadows[index];
            let ghost m_before = merged;
            merged.absorb(absorbed);
            let ghost pre = self.shadows@;
            self.shadows.remove(index);
            proof {
                let idx = index as int;
                assert(end_lt(sh_lo(absorbed), sh_lo(m_before)));
                assert(sh_lo(merged) == sh_lo(absorbed)) by {
                    assert(!end_le(sh_lo(m_before), sh_lo(absorbed)));
                }
                assert(sh_contains(merged, absorbed)) by {
                    lemma_end_le_refl(sh_lo(absorbed));
                    lemma_end_le_total(sh_hi(m_before), sh_hi(absorbed));
                }
                assert(sh_contains(merged, m_before)) by {
                    lemma_end_lt_implies_le(sh_lo(absorbed), sh_lo(m_before));
                    lemma_end_le_total(sh_hi(m_before), sh_hi(absorbed));
                }
                lemma_contains_trans(merged, m_before, shadow);
                assert forall|j: int| 0 <= j < self.shadows@.len() implies #[trigger] self.shadows@[j]
                    == pre[if j < idx {
                    j
                } else {
                    j + 1
                }] by {}
                assert(line_wf(self.shadows@));
                assert forall|j: int| 0 <= j < index implies end_lt(
                    sh_hi(merged),
                    sh_lo(#[trigger] self.shadows@[j]),
                ) by {
                    assert(self.shadows@[j] == pre[j]);
                    assert(end_lt(sh_hi(m_before), sh_lo(pre[j])));
                    assert(end_lt(sh_hi(absorbed), sh_lo(pre[j]))) by {
                        assert(end_lt(sh_hi(pre[idx]), sh_lo(pre[j])));
                    }
                }
                assert forall|j: int|
                    idx <= j < self.shadows@.len() implies end_lt(
                    sh_lo(#[trigger] self.shadows@[j]),
                    sh_lo(merged),
                ) by {
                    assert(self.shadows@[j] == pre[j + 1]);
                    lemma_end_le_lt_trans(
                        sh_lo(pre[j + 1]),
                        sh_hi(pre[j + 1]),
                        sh_lo(pre[idx]),
                    );
                }
                assert forall|i: int|
                    0 <= i < orig.len() implies (exists|j: int|
                    0 <= j < self.shadows@.len() && #[trigger] self.shadows@[j] == orig[i])
                    || sh_contains(merged, #[trigger] orig[i]) by {
                    if sh_contains(m_before, orig[i]) {
                        lemma_contains_trans(merged, m_before, orig[i]);
                    } else {
                        let j = choose|j: int|
                            0 <= j < pre.len() && #[trigger] pre[j] == orig[i];
                        if j == idx {
                            assert(sh_contains(merged, orig[i]));
                        } else if j < idx {
                            assert(self.shadows@[j] == orig[i]);
                        } else {
                            assert(self.shadows@[j - 1] == orig[i]);
                        }
                    }
                }
                assert forall|j: int| 0 <= j < self.shadows@.len() implies entry_from(
                    orig,
                    #[trigger] self.shadows@[j],
                ) by {
                    let jp = if j < idx {
                        j
                    } else {
                        j + 1
                    };
                    assert(self.shadows@[j] == pre[jp]);
                    assert(entry_from(orig, pre[jp]));
                }
                assert(pre[idx] == absorbed);
                assert(entry_from(orig, absorbed));
                assert(no_new_rays(merged, shadow, orig)) by {
                    assert forall|r: Ray| ray_wf(r) && #[trigger] covers(merged, r) implies covers(
                        shadow,
                        r,
                    ) || exists|i: int|
                        0 <= i < orig.len() && #[trigger] covers(orig[i], r) by {
                        lemma_union_covers(m_before, absorbed, merged, r);
                    }
                }
            }
        }
        proof {
            // the right neighbour, if any, now ends strictly below the
            // merged shadow
            if index < self.shadows@.len() {
                let r = self.shadows@[index as int];
                assert(!sh_overlaps(merged, r));
                assert(end_le(sh_lo(r), sh_hi(merged))) by {
                    lemma_end_lt_implies_le(sh_lo(r), sh_lo(merged));
                    lemma_end_le_trans(sh_lo(r), sh_lo(merged), sh_hi(merged));
                }
                assert(end_lt(sh_hi(r), sh_lo(merged)));
            }
        }
        let ghost before_insert = self.shadows@;
        self.shadows.insert(index, merged);
        proof {
            let idx = index as int;
            assert forall|j: int| 0 <= j < self.shadows@.len() implies #[trigger] self.shadows@[j]
                == (if j < idx {
                before_insert[j]
            } else if j == idx {
                merged
            } else {
                before_insert[j - 1]
            }) by {}
            assert forall|a: int, b: int|
                0 <= a < b < self.shadows@.len() implies end_lt(
                sh_hi(#[trigger] self.shadows@[b]),
                sh_lo(#[trigger] self.shadows@[a]),
            ) by {
                let r0 = before_insert[idx];
                if a < idx && b == idx {
                    assert(end_lt(sh_hi(merged), sh_lo(before_insert[a])));
                } else if a == idx && b > idx {
                    assert(end_lt(sh_hi(before_insert[b - 1]), sh_lo(merged))) by {
                        if b - 1 > idx {
                            lemma_end_lt_implies_le(
                                sh_hi(before_insert[b - 1]),
                                sh_lo(before_insert[idx]),
                            );
                            lemma_end_le_lt_trans(
                                sh_hi(before_insert[b - 1]),
                                sh_lo(before_insert[idx]),
                                sh_lo(merged),
                            );
                        }
                    }
                } else if a < idx && b > idx {
                    assert(end_lt(sh_hi(before_insert[b - 1]), sh_lo(before_insert[a])));
                }
            }
            assert(line_wf(self.shadows@));
            assert(self.shadows@[idx] == merged);
            assert(sh_contains(merged, shadow));
            assert forall|i: int|
                0 <= i < orig.len() implies exists|j: int|
                0 <= j < self.shadows@.len() && sh_contains(
                    self.shadows@[j],
                    #[trigger] orig[i],
                ) by {
                if sh_contains(merged, orig[i]) {
                    assert(sh_contains(self.shadows@[idx], orig[i]));
                } else {
                    let j = choose|j: int|
                        0 <= j < before_insert.len() && #[trigger] before_insert[j] == orig[i];
                    lemma_contains_refl(orig[i]);
                    if j < idx {
                        assert(sh_contains(self.shadows@[j], orig[i]));
                    } else {
                        assert(sh_contains(self.shadows@[j + 1], orig[i]));
                    }
                }
            }
            assert forall|j: int| 0 <= j < self.shadows@.len() implies no_new_rays(
                #[trigger] self.shadows@[j],
                shadow,
                orig,
            ) by {
                if j != idx {
                    let jp = if j < idx {
                        j
                    } else {
                        j - 1
                    };
                    assert(self.shadows@[j] == before_insert[jp]);
                    assert(entry_from(orig, before_insert[jp]));
                    lemma_entry_from_no_new(self.shadows@[j], shadow, orig);
                }
            }
        }
    }
}

// ---------------------------------------------------------------------------
// Projecting tiles and computing the visible area
// ---------------------------------------------------------------------------

pub open spec fn sq_of(p: WorldPos) -> int {
    p.x * p.x + p.y * p.y
}

/// Whether `p` lies within the vision disc of squared radius `range * range`
/// around `hero`.
pub open spec fn in_disc(hero: WorldPos, range: int, p: WorldPos) -> bool {
    (p.x - hero.x) * (p.x - hero.x) + (p.y - hero.y) * (p.y - hero.y) <= range * range
}

proof fn lemma_sq_nonneg(a: int)
    ensures
        a * a >= 0,
{
    assert(a * a >= 0) by (nonlinear_arith);
}

proof fn lemma_sq_bounded(a: int, b: int)
    requires
        -b <= a <= b,
        0 <= b,
    ensures
        a * a <= b * b,
{
    assert(a * a <= b * b) by (nonlinear_arith)
        requires
            -b <= a <= b,
            0 <= b,
    ;
}

proof fn lemma_abs_from_sq(a: int, r: int)
    requires
        a * a <= r * r,
        0 <= r,
    ensures
        -r <= a <= r,
{
    assert(-r <= a <= r) by (nonlinear_arith)
        requires
            a * a <= r * r,
            0 <= r,
    ;
}

fn sq_dist_exec(p: WorldPos) -> (r: i64)
    requires
        -20000 <= p.x <= 20000,
        -20000 <= p.y <= 20000,
    ensures
        r == sq_of(p),
        0 <= r,
{
    proof {
        lemma_sq_bounded(p.x as int, 20000);
        lemma_sq_bounded(p.y as int, 20000);
        lemma_sq_nonneg(p.x as int);
        lemma_sq_nonneg(p.y as int);
    }
    let dx = p.x as i64;
    let dy = p.y as i64;
    dx * dx + dy * dy
}

pub open spec fn ray_min(a: Ray, b: Ray) -> Ray {
    if ray_le(a, b) {
        a
    } else {
        b
    }
}

pub open spec fn ray_max(a: Ray, b: Ray) -> Ray {
    if ray_le(a, b) {
        b
    } else {
        a
    }
}

/// The four corner rays of a tile at the given relative offset, in doubled
/// coordinates; the viewer sits at the center of its own tile, and the tile
/// covers a full square around its center.
pub open spec fn corner_ll(p: WorldPos) -> Ray {
    Ray { x: (2 * p.x - 1) as i64, y: (2 * p.y - 1) as i64 }
}

pub open spec fn corner_lr(p: WorldPos) -> Ray {
    Ray { x: (2 * p.x + 1) as i64, y: (2 * p.y - 1) as i64 }
}

pub open spec fn corner_ul(p: WorldPos) -> Ray {
    Ray { x: (2 * p.x - 1) as i64, y: (2 * p.y + 1) as i64 }
}

pub open spec fn corner_ur(p: WorldPos) -> Ray {
    Ray { x: (2 * p.x + 1) as i64, y: (2 * p.y + 1) as i64 }
}

/// The main shadow a tile at the given relative offset casts, as a value.
pub open spec fn proj_main(off: WorldPos) -> RadialShadow {
    if off.x == 0 && off.y == 0 {
        RadialShadow::FullCircle
    } else if off.x == 0 && off.y > 0 {
        RadialShadow::RightClosed { start: corner_ll(off) }
    } else {
        RadialShadow::Open {
            start: ray_min(
                ray_min(ray_min(corner_ll(off), corner_lr(off)), corner_ul(off)),
                corner_ur(off),
            ),
            end: ray_max(
                ray_max(ray_max(corner_ll(off), corner_lr(off)), corner_ul(off)),
                corner_ur(off),
            ),
        }
    }
}

/// The second half-shadow, present only for a tile straight up, whose arc
/// is split at the reference axis.
pub open spec fn proj_split(off: WorldPos) -> Option<RadialShadow> {
    if off.x == 0 && off.y > 0 {
        Some(RadialShadow::LeftClosed { end: corner_lr(off) })
    } else {
        None
    }
}

/// Both projection parts are well-formed intervals.
pub proof fn lemma_proj_wf(off: WorldPos)
    requires
        pos_ok(off),
    ensures
        sh_wf(proj_main(off)),
        proj_split(off) matches Some(b) ==> sh_wf(b),
{
    if off.x == 0 && off.y == 0 {
    } else if off.x == 0 && off.y > 0 {
        assert(ray_wf(corner_ll(off)) && ray_wf(corner_lr(off)));
    } else {
        let c1 = corner_ll(off);
        let c2 = corner_lr(off);
        let c3 = corner_ul(off);
        let c4 = corner_ur(off);
        assert(ray_wf(c1) && ray_wf(c2) && ray_wf(c3) && ray_wf(c4));
        lemma_ray_le_refl(c1);
        lemma_ray_le_total(c1, c2);
        lemma_ray_le_total(ray_min(c1, c2), c3);
        lemma_ray_le_total(ray_min(ray_min(c1, c2), c3), c4);
        lemma_ray_le_total(c2, ray_max(c1, c2));
        lemma_ray_le_total(c3, ray_max(ray_max(c1, c2), c3));
        lemma_ray_le_total(c4, ray_max(ray_max(ray_max(c1, c2), c3), c4));
        let start = ray_min(ray_min(ray_min(c1, c2), c3), c4);
        let end = ray_max(ray_max(ray_max(c1, c2), c3), c4);
        assert(ray_le(start, c4));
        assert(ray_le(c4, end));
        lemma_ray_le_trans(start, c4, end);
    }
}

/// The shadow(s) a tile at the given relative offset casts. The tile of the
/// viewer itself obstructs everything. A tile straight up crosses the
/// reference axis, so its arc cannot be a single interval and is split in
/// two at the axis. Every other tile casts one ordinary interval spanning
/// its four corner rays.
pub fn project_tile_radially(relative_tile_pos: WorldPos) -> (r: (
    RadialShadow,
    Option<RadialShadow>,
))
    requires
        pos_ok(relative_tile_pos),
    ensures
        sh_wf(r.0),
        r.1 matches Some(b) ==> sh_wf(b),
        r.0 == proj_main(relative_tile_pos),
        r.1 == proj_split(relative_tile_pos),
{
    let x = relative_tile_pos.x;
    let y = relative_tile_pos.y;

    // special case: the viewer's own tile completely obstructs
    if x == 0 && y == 0 {
        return (RadialShadow::FullCircle, None);
    }
    // a tile straight up crosses the reference axis and is split in two
    if x == 0 && y > 0 {
        let ll = Ray { x: 2 * (x as i64) - 1, y: 2 * (y as i64) - 1 };
        let lr = Ray { x: 2 * (x as i64) + 1, y: 2 * (y as i64) - 1 };
        let left_shadow = RadialShadow::RightClosed { start: ll };
        let right_shadow = RadialShadow::LeftClosed { end: lr };
        return (left_shadow, Some(right_shadow));
    }
    let c1 = Ray { x: 2 * (x as i64) - 1, y: 2 * (y as i64) - 1 };
    let c2 = Ray { x: 2 * (x as i64) + 1, y: 2 * (y as i64) - 1 };
    let c3 = Ray { x: 2 * (x as i64) - 1, y: 2 * (y as i64) + 1 };
    let c4 = Ray { x: 2 * (x as i64) + 1, y: 2 * (y as i64) + 1 };
    proof {
        assert(ray_wf(c1) && ray_wf(c2) && ray_wf(c3) && ray_wf(c4));
    }
    let start = ray_min_exec(&ray_min_exec(&ray_min_exec(&c1, &c2), &c3), &c4);
    let end = ray_max_exec(&ray_max_exec(&ray_max_exec(&c1, &c2), &c3), &c4);
    proof {
        lemma_ray_le_trans(start, c4, end);
    }
    (RadialShadow::Open { start, end }, None)
}

fn ray_min_exec(a: &Ray, b: &Ray) -> (r: Ray)
    requires
        ray_wf(*a),
        ray_wf(*b),
    ensures
        r == ray_min(*a, *b),
        ray_wf(r),
        ray_le(r, *a) && ray_le(r, *b),
{
    proof {
        lemma_ray_le_refl(*a);
        lemma_ray_le_refl(*b);
        lemma_ray_le_total(*a, *b);
    }
    if ray_le_exec(a, b) {
        *a
    } else {
        *b
    }
}

fn ray_max_exec(a: &Ray, b: &Ray) -> (r: Ray)
    requires
        ray_wf(*a),
        ray_wf(*b),
    ensures
        r == ray_max(*a, *b),
        ray_wf(r),
        ray_le(*a, r) && ray_le(*b, r),
{
    proof {
        lemma_ray_le_refl(*a);
        lemma_ray_le_refl(*b);
        lemma_ray_le_total(*a, *b);
    }
    if ray_le_exec(a, b) {
        *b
    } else {
        *a
    }
}

/// Sort offsets by squared distance from the origin, nearest first, keeping
/// exactly the same elements.
fn sort_by_sq_dist(v: Vec<WorldPos>) -> (r: Vec<WorldPos>)
    requires
        forall|i: int|
            0 <= i < v@.len() ==> -20000 <= (#[trigger] v@[i]).x <= 20000 && -20000 <= v@[i].y
                <= 20000,
    ensures
        r@.len() == v@.len(),
        forall|p: WorldPos| r@.contains(p) == v@.contains(p),
        forall|i: int, j: int|
            0 <= i < j < r@.len() ==> sq_of(#[trigger] r@[i]) <= sq_of(#[trigger] r@[j]),
        forall|i: int|
            0 <= i < r@.len() ==> -20000 <= (#[trigger] r@[i]).x <= 20000 && -20000 <= r@[i].y
                <= 20000,
{
    let mut rest = v;
    let ghost orig = rest@;
    let mut out: Vec<WorldPos> = Vec::new();
    while rest.len() > 0
        invariant
            out@.len() + rest@.len() == orig.len(),
            forall|p: WorldPos| (out@.contains(p) || rest@.contains(p)) == orig.contains(p),
            forall|i: int, j: int|
                0 <= i < j < out@.len() ==> sq_of(#[trigger] out@[i]) <= sq_of(
                    #[trigger] out@[j],
                ),
            forall|i: int, j: int|
                0 <= i < out@.len() && 0 <= j < rest@.len() ==> sq_of(#[trigger] out@[i]) <= sq_of(
                    #[trigger] rest@[j],
                ),
            forall|i: int|
                0 <= i < rest@.len() ==> -20000 <= (#[trigger] rest@[i]).x <= 20000 && -20000
                    <= rest@[i].y <= 20000,
            forall|i: int|
                0 <= i < out@.len() ==> -20000 <= (#[trigger] out@[i]).x <= 20000 && -20000
                    <= out@[i].y <= 20000,
        decreases rest@.len(),
    {
        let n = rest.len();
        let mut besti: usize = 0;
        let mut bestsq: i64 = sq_dist_exec(rest[0]);
        let mut i: usize = 1;
        while i < n
            invariant
                n == rest@.len(),
                besti < i <= n,
                forall|i2: int|
                    0 <= i2 < rest@.len() ==> -20000 <= (#[trigger] rest@[i2]).x <= 20000 && -20000
                        <= rest@[i2].y <= 20000,
                bestsq == sq_of(rest@[besti as int]),
                forall|j: int| 0 <= j < i ==> bestsq <= sq_of(#[trigger] rest@[j]),
            decreases n - i,
        {
            let s = sq_dist_exec(rest[i]);
            if s < bestsq {
                besti = i;
                bestsq = s;
            }
            i += 1;
        }
        let ghost pre = rest@;
        let m = rest.remove(besti);
        let ghost out_pre = out@;
        out.push(m);
        proof {
            assert forall|p: WorldPos| (out@.contains(p) || rest@.contains(p)) == orig.contains(
                p,
            ) by {
                if orig.contains(p) {
                    if pre.contains(p) {
                        let j = choose|j: int| 0 <= j < pre.len() && pre[j] == p;
                        if j == besti {
                            assert(out@[out@.len() - 1] == p);
                        } else if j < besti {
                            assert(rest@[j] == p);
                        } else {
                            assert(rest@[j - 1] == p);
                        }
                    } else {
                        assert(out_pre.contains(p));
                        let j = choose|j: int| 0 <= j < out_pre.len() && out_pre[j] == p;
                        assert(out@[j] == p);
                    }
                }
                if rest@.contains(p) {
                    let j = choose|j: int| 0 <= j < rest@.len() && rest@[j] == p;
                    if j < besti {
                        assert(pre[j] == p);
                    } else {
                        assert(pre[j + 1] == p);
                    }
                    assert(pre.contains(p));
                }
                if out@.contains(p) {
                    let j = choose|j: int| 0 <= j < out@.len() && out@[j] == p;
                    if j < out@.len() - 1 {
                        assert(out_pre[j] == p);
                    } else {
                        assert(p == m);
                        assert(pre[besti as int] == p);
                        assert(pre.contains(p));
                    }
                }
            }
            assert forall|i2: int, j: int|
                0 <= i2 < out@.len() && 0 <= j < rest@.len() implies sq_of(#[trigger] out@[i2])
                <= sq_of(#[trigger] rest@[j]) by {
                if j < besti {
                    assert(rest@[j] == pre[j]);
                } else {
                    assert(rest@[j] == pre[j + 1]);
                }
            }
            assert forall|i2: int|
                0 <= i2 < rest@.len() implies -20000 <= (#[trigger] rest@[i2]).x <= 20000 && -20000
                <= rest@[i2].y <= 20000 by {
                if i2 < besti {
                    assert(rest@[i2] == pre[i2]);
                } else {
                    assert(rest@[i2] == pre[i2 + 1]);
                }
            }
        }
    }
    out
}

/// The offset of a tile relative to the viewer.
pub open spec fn off_of(hero: WorldPos, p: WorldPos) -> WorldPos {
    WorldPos { x: (p.x - hero.x) as i32, y: (p.y - hero.y) as i32 }
}

/// One projection part lies inside one of the blocker's projection parts.
pub open spec fn sh_part_dominated(s: RadialShadow, b_off: WorldPos) -> bool {
    sh_contains(proj_main(b_off), s) || (proj_split(b_off) matches Some(t) && sh_contains(t, s))
}

/// The whole projection of the tile at offset `p_off` lies inside the
/// projection of the blocking tile at offset `b_off`.
pub open spec fn proj_dominated(p_off: WorldPos, b_off: WorldPos) -> bool {
    &&& sh_part_dominated(proj_main(p_off), b_off)
    &&& (proj_split(p_off) matches Some(sp) ==> sh_part_dominated(sp, b_off))
}

/// Some entry of the shadow line fully contains the interval.
pub open spec fn part_in_line(line: Seq<RadialShadow>, s: RadialShadow) -> bool {
    exists|e: int| 0 <= e < line.len() && sh_contains(#[trigger] line[e], s)
}

/// The ray falls within the projection of the tile at this offset.
pub open spec fn ray_in_proj(off: WorldPos, r: Ray) -> bool {
    covers(proj_main(off), r) || (proj_split(off) matches Some(t) && covers(t, r))
}

/// Every direction the shadow line blocks is blocked by the projection of
/// some sight-blocking tile of the visible set.
pub open spec fn line_from_blockers(
    line: Seq<RadialShadow>,
    tiles: Seq<WorldPos>,
    m: GameMap,
    hero: WorldPos,
) -> bool {
    forall|e: int, r: Ray|
        0 <= e < line.len() && ray_wf(r) && #[trigger] covers(line[e], r) ==> exists|b: WorldPos|
            #[trigger] tiles.contains(b) && tile_blocks_visibility(m.tile_at(b)) && ray_in_proj(
                off_of(hero, b),
                r,
            )
}

/// What a computed field of view satisfies: the viewer's own tile is in it,
/// everything in it lies within the vision disc, over clear terrain it is
/// exactly the disc, and a tile whose whole angular projection lies inside
/// the projection of a strictly nearer sight-blocking tile of the set is
/// excluded — walls shadow what stands behind them.
pub open spec fn fov_post(m: GameMap, hero: WorldPos, range: int, tiles: Seq<WorldPos>) -> bool {
    &&& tiles.contains(hero)
    &&& forall|p: WorldPos| #[trigger] tiles.contains(p) ==> in_disc(hero, range, p)
    &&& (forall|q: WorldPos|
        in_disc(hero, range, q) ==> !tile_blocks_visibility(#[trigger] m.tile_at(q))) ==> (forall|
        p: WorldPos,
    |
        #[trigger] tiles.contains(p) <==> in_disc(hero, range, p))
    &&& forall|p: WorldPos, b: WorldPos|
        #![trigger tiles.contains(p), tiles.contains(b)]
        in_disc(hero, range, p) && in_disc(hero, range, b) && tiles.contains(b)
            && tile_blocks_visibility(m.tile_at(b)) && sq_of(off_of(hero, b)) < sq_of(
            off_of(hero, p),
        ) && proj_dominated(off_of(hero, p), off_of(hero, b)) ==> !tiles.contains(p)
    &&& forall|p: WorldPos, r: Ray|
        in_disc(hero, range, p) && ray_wf(r) && !(#[trigger] tiles.contains(p)) && #[trigger] covers(
            proj_main(off_of(hero, p)),
            r,
        ) ==> exists|b: WorldPos|
            #[trigger] tiles.contains(b) && tile_blocks_visibility(m.tile_at(b)) && ray_in_proj(
                off_of(hero, b),
                r,
            )
}

/// Compute the set of tiles visible from `hero` within the given radius,
/// by radial shadowcasting: candidate tiles are processed nearest first,
/// each tile is visible unless its angular projection is already fully in
/// shadow, and each visible opaque tile merges its projection into the
/// shadow line. The viewer's own tile is always visible. In clear terrain
/// (no sight-blocking tile within the disc) the result is exactly the
/// disc of squared radius `range * range` around the viewer.
pub fn refresh_area(hero: WorldPos, range: i32, map: &GameMap) -> (r: Vec<WorldPos>)
    requires
        map.wf(),
        pos_ok(hero),
        0 <= range <= 10000,
    ensures
        fov_post(*map, hero, range as int, r@),
{
    let ghost all_clear: bool = (forall|q: WorldPos|
        in_disc(hero, range as int, q) ==> !tile_blocks_visibility(#[trigger] map.tile_at(q)));

    // gather every offset within the disc
    let mut to_process: Vec<WorldPos> = Vec::new();
    proof {
        lemma_sq_bounded(range as int, 10000);
        lemma_sq_nonneg(range as int);
    }
    let rsq: i64 = (range as i64) * (range as i64);
    let mut x: i32 = -range;
    while x <= range
        invariant
            0 <= range <= 10000,
            rsq == (range as int) * (range as int),
            -range <= x <= range + 1,
            forall|off: WorldPos|
                #[trigger] to_process@.contains(off) <==> (-range <= off.x < x && -range <= off.y
                    <= range && sq_of(off) <= (range as int) * (range as int)),
        decreases range + 1 - x,
    {
        let mut y: i32 = -range;
        while y <= range
            invariant
                0 <= range <= 10000,
                rsq == (range as int) * (range as int),
                -range <= x <= range,
                -range <= y <= range + 1,
                forall|off: WorldPos|
                    #[trigger] to_process@.contains(off) <==> ((-range <= off.x < x && -range
                        <= off.y <= range && sq_of(off) <= (range as int) * (range as int)) || (
                    off.x == x && -range <= off.y < y && sq_of(off) <= (range as int) * (
                    range as int))),
            decreases range + 1 - y,
        {
            let off = WorldPos { x, y };
            let s = sq_dist_exec(off);
            let ghost pre = to_process@;
            if s <= rsq {
                to_process.push(off);
                proof {
                    assert forall|o2: WorldPos| #[trigger] to_process@.contains(o2) implies (
                    pre.contains(o2) || o2 == off) by {
                        let j = choose|j: int|
                            0 <= j < to_process@.len() && to_process@[j] == o2;
                        if j < pre.len() {
                            assert(pre[j] == o2);
                        }
                    }
                    assert forall|o2: WorldPos| pre.contains(o2) implies
                        #[trigger] to_process@.contains(o2) by {
                        let j = choose|j: int| 0 <= j < pre.len() && pre[j] == o2;
                        assert(to_process@[j] == o2);
                    }
                    assert(to_process@[to_process@.len() - 1] == off);
                    assert(to_process@.contains(off));
                }
            }
            y += 1;
        }
        x += 1;
    }
    proof {
        // the whole disc is gathered: squared distance within the disc
        // bounds both coordinates
        assert forall|off: WorldPos|
            #[trigger] to_process@.contains(off) <==> sq_of(off) <= (range as int) * (
        range as int) by {
            if sq_of(off) <= (range as int) * (range as int) {
                lemma_sq_nonneg(off.y as int);
                lemma_sq_nonneg(off.x as int);
                lemma_abs_from_sq(off.x as int, range as int);
                lemma_abs_from_sq(off.y as int, range as int);
            }
        }
        assert(to_process@.contains(WorldPos { x: 0, y: 0 })) by {
            lemma_sq_nonneg(0);
            assert(sq_of(WorldPos { x: 0, y: 0 }) == 0);
        }
    }

    proof {
        assert forall|i: int|
            0 <= i < to_process@.len() implies -20000 <= (#[trigger] to_process@[i]).x <= 20000
            && -20000 <= to_process@[i].y <= 20000 by {
            assert(to_process@.contains(to_process@[i]));
            lemma_sq_nonneg(to_process@[i].y as int);
            lemma_sq_nonneg(to_process@[i].x as int);
            lemma_abs_from_sq(to_process@[i].x as int, range as int);
            lemma_abs_from_sq(to_process@[i].y as int, range as int);
        }
    }

    // nearest tiles must be considered first
    let sorted = sort_by_sq_dist(to_process);
    proof {
        assert(sorted@.len() > 0) by {
            assert(sorted@.contains(WorldPos { x: 0, y: 0 }));
        }
        assert(sorted@[0] == (WorldPos { x: 0, y: 0 })) by {
            let j = choose|j: int| 0 <= j < sorted@.len() && sorted@[j] == (WorldPos { x: 0, y: 0 });
            assert(sq_of(sorted@[0]) <= sq_of(sorted@[j]));
            lemma_sq_nonneg(sorted@[0].x as int);
            lemma_sq_nonneg(sorted@[0].y as int);
            assert(sq_of(sorted@[0]) == 0);
            lemma_abs_from_sq(sorted@[0].x as int, 0);
            lemma_abs_from_sq(sorted@[0].y as int, 0);
        }
    }

    let n = sorted.len();
    let mut shadow_line = RadialShadowLine::new();
    let mut visible: Vec<WorldPos> = Vec::new();
    let mut i: usize = 0;
    while i < n && !shadow_line.is_full_shadow()
        invariant
            map.wf(),
            pos_ok(hero),
            0 <= range <= 10000,
            n == sorted@.len(),
            n > 0,
            sorted@[0] == (WorldPos { x: 0, y: 0 }),
            i <= n,
            all_clear == (forall|q: WorldPos|
                in_disc(hero, range as int, q) ==> !tile_blocks_visibility(
                    #[trigger] map.tile_at(q),
                )),
            forall|off: WorldPos|
                #[trigger] sorted@.contains(off) <==> sq_of(off) <= (range as int) * (
                range as int),
            forall|i2: int|
                0 <= i2 < sorted@.len() ==> -20000 <= (#[trigger] sorted@[i2]).x <= 20000 && -20000
                    <= sorted@[i2].y <= 20000,
            forall|a: int, b: int|
                0 <= a < b < sorted@.len() ==> sq_of(#[trigger] sorted@[a]) <= sq_of(
                    #[trigger] sorted@[b],
                ),
            shadow_line.wf(),
            i == 0 ==> shadow_line.shadows@.len() == 0,
            i >= 1 ==> visible@.contains(hero),
            forall|p: WorldPos| #[trigger] visible@.contains(p) ==> in_disc(hero, range as int, p),
            forall|v: WorldPos|
                #[trigger] visible@.contains(v) ==> exists|j: int|
                    0 <= j < i && v.x == hero.x + (#[trigger] sorted@[j]).x && v.y == hero.y
                        + sorted@[j].y,
            forall|v: WorldPos|
                #[trigger] visible@.contains(v) && tile_blocks_visibility(map.tile_at(v))
                    ==> part_in_line(shadow_line.shadows@, proj_main(off_of(hero, v))) && (
                proj_split(off_of(hero, v)) matches Some(t) ==> part_in_line(
                    shadow_line.shadows@,
                    t,
                )),
            forall|p: WorldPos, b: WorldPos|
                #![trigger visible@.contains(p), visible@.contains(b)]
                in_disc(hero, range as int, p) && in_disc(hero, range as int, b)
                    && visible@.contains(b) && tile_blocks_visibility(map.tile_at(b)) && sq_of(
                    off_of(hero, b),
                ) < sq_of(off_of(hero, p)) && proj_dominated(off_of(hero, p), off_of(hero, b))
                    ==> !visible@.contains(p),
            line_from_blockers(shadow_line.shadows@, visible@, *map, hero),
            forall|p: WorldPos, r: Ray|
                (exists|j: int|
                    0 <= j < i && p.x == hero.x + (#[trigger] sorted@[j]).x && p.y == hero.y
                        + sorted@[j].y) && !visible@.contains(p) && ray_wf(r) && #[trigger] covers(
                    proj_main(off_of(hero, p)),
                    r,
                ) ==> exists|b: WorldPos|
                    #[trigger] visible@.contains(b) && tile_blocks_visibility(map.tile_at(b))
                        && ray_in_proj(off_of(hero, b), r),
            all_clear ==> shadow_line.shadows@.len() == 0,
            all_clear ==> (forall|p: WorldPos|
                #[trigger] visible@.contains(p) <==> exists|j: int|
                    0 <= j < i && p.x == hero.x + sorted@[j].x && p.y == hero.y + sorted@[j].y),
        decreases n - i,
    {
        let offset_wp = sorted[i];
        let (shadow_a, maybe_shadow_b) = project_tile_radially(offset_wp);
        let ghost line_pre = shadow_line.shadows@;

        let mut is_blocked = shadow_line.is_in_shadow(&shadow_a);
        if is_blocked {
            match &maybe_shadow_b {
                Some(shadow_b) => {
                    is_blocked = shadow_line.is_in_shadow(shadow_b);
                },
                None => {},
            }
        }
        proof {
            if all_clear {
                assert(!is_blocked);
            }
        }
        let ghost vis_pre = visible@;
        if !is_blocked {
            let actual_wp = WorldPos { x: offset_wp.x + hero.x, y: offset_wp.y + hero.y };
            visible.push(actual_wp);
            proof {
                assert(sorted@.contains(sorted@[i as int]));
                assert(in_disc(hero, range as int, actual_wp));
                assert forall|p: WorldPos| #[trigger] visible@.contains(p) implies (
                vis_pre.contains(p) || p == actual_wp) by {
                    let j = choose|j: int| 0 <= j < visible@.len() && visible@[j] == p;
                    if j < vis_pre.len() {
                        assert(vis_pre[j] == p);
                    }
                }
                assert forall|p: WorldPos| vis_pre.contains(p) implies
                    #[trigger] visible@.contains(p) by {
                    let j = choose|j: int| 0 <= j < vis_pre.len() && vis_pre[j] == p;
                    assert(visible@[j] == p);
                }
                assert(visible@[visible@.len() - 1] == actual_wp);
                assert(visible@.contains(actual_wp));
                if i == 0 {
                    assert(actual_wp == hero);
                }
                assert(off_of(hero, actual_wp) == sorted@[i as int]);
                assert forall|v: WorldPos| #[trigger] visible@.contains(v) implies exists|j: int|
                    0 <= j < i + 1 && v.x == hero.x + (#[trigger] sorted@[j]).x && v.y == hero.y
                        + sorted@[j].y by {
                    if vis_pre.contains(v) {
                        let j = choose|j: int|
                            0 <= j < i && v.x == hero.x + (#[trigger] sorted@[j]).x && v.y
                                == hero.y + sorted@[j].y;
                        assert(0 <= j < i + 1 && v.x == hero.x + sorted@[j].x && v.y == hero.y
                            + sorted@[j].y);
                    } else {
                        assert(v == actual_wp);
                        assert(v.x == hero.x + sorted@[i as int].x && v.y == hero.y
                            + sorted@[i as int].y);
                    }
                }
            }

            let blocking = map.get_tile(actual_wp).blocks_visibility();
            if blocking {
                proof {
                    if all_clear {
                        assert(in_disc(hero, range as int, actual_wp));
                        assert(false);
                    }
                }
                shadow_line.add(shadow_a);
                let ghost line_mid = shadow_line.shadows@;
                proof {
                    assert forall|sp: RadialShadow| sh_wf(sp) && part_in_line(line_pre, sp) implies
                        part_in_line(line_mid, sp) by {
                        let e = choose|e: int|
                            0 <= e < line_pre.len() && sh_contains(#[trigger] line_pre[e], sp);
                        let j2 = choose|j2: int|
                            0 <= j2 < line_mid.len() && sh_contains(
                                #[trigger] line_mid[j2],
                                line_pre[e],
                            );
                        lemma_contains_trans(line_mid[j2], line_pre[e], sp);
                    }
                    assert(part_in_line(line_mid, shadow_a));
                    assert(line_from_blockers(line_mid, visible@, *map, hero)) by {
                        assert forall|e: int, r: Ray|
                            0 <= e < line_mid.len() && ray_wf(r) && #[trigger] covers(
                                line_mid[e],
                                r,
                            ) implies exists|b: WorldPos|
                                #[trigger] visible@.contains(b) && tile_blocks_visibility(
                                    map.tile_at(b),
                                ) && ray_in_proj(off_of(hero, b), r) by {
                            assert(no_new_rays(line_mid[e], shadow_a, line_pre));
                            if covers(shadow_a, r) {
                                assert(visible@.contains(actual_wp));
                                assert(ray_in_proj(off_of(hero, actual_wp), r));
                            } else {
                                let e2 = choose|e2: int|
                                    0 <= e2 < line_pre.len() && #[trigger] covers(
                                        line_pre[e2],
                                        r,
                                    );
                                let b = choose|b: WorldPos|
                                    #[trigger] vis_pre.contains(b) && tile_blocks_visibility(
                                        map.tile_at(b),
                                    ) && ray_in_proj(off_of(hero, b), r);
                                assert(visible@.contains(b));
                            }
                        }
                    }
                }
                match maybe_shadow_b {
                    Some(shadow_b) => {
                        shadow_line.add(shadow_b);
                    },
                    None => {},
                }
                proof {
                    let line_post = shadow_line.shadows@;
                    assert(line_from_blockers(line_post, visible@, *map, hero)) by {
                        assert forall|e: int, r: Ray|
                            0 <= e < line_post.len() && ray_wf(r) && #[trigger] covers(
                                line_post[e],
                                r,
                            ) implies exists|b: WorldPos|
                                #[trigger] visible@.contains(b) && tile_blocks_visibility(
                                    map.tile_at(b),
                                ) && ray_in_proj(off_of(hero, b), r) by {
                            if line_post != line_mid {
                                let sb = proj_split(sorted@[i as int])->Some_0;
                                assert(no_new_rays(line_post[e], sb, line_mid));
                                if covers(sb, r) {
                                    assert(visible@.contains(actual_wp));
                                    assert(ray_in_proj(off_of(hero, actual_wp), r));
                                } else {
                                    let e2 = choose|e2: int|
                                        0 <= e2 < line_mid.len() && #[trigger] covers(
                                            line_mid[e2],
                                            r,
                                        );
                                }
                            }
                        }
                    }
                    assert forall|sp: RadialShadow| sh_wf(sp) && part_in_line(line_mid, sp) implies
                        part_in_line(line_post, sp) by {
                        let e = choose|e: int|
                            0 <= e < line_mid.len() && sh_contains(#[trigger] line_mid[e], sp);
                        let j2 = choose|j2: int|
                            0 <= j2 < line_post.len() && sh_contains(
                                #[trigger] line_post[j2],
                                line_mid[e],
                            );
                        lemma_contains_trans(line_post[j2], line_mid[e], sp);
                    }
                    lemma_proj_wf(sorted@[i as int]);
                    assert(part_in_line(line_post, proj_main(sorted@[i as int])));
                    assert(proj_split(sorted@[i as int]) matches Some(t) ==> part_in_line(
                        line_post,
                        t,
                    ));
                    // earlier blockers stay covered through both merges
                    assert forall|v: WorldPos|
                        vis_pre.contains(v) && tile_blocks_visibility(
                            #[trigger] map.tile_at(v),
                        ) implies part_in_line(line_post, proj_main(off_of(hero, v))) && (
                    proj_split(off_of(hero, v)) matches Some(t) ==> part_in_line(
                        line_post,
                        t,
                    )) by {
                        let jv = choose|jv: int|
                            0 <= jv < i && v.x == hero.x + (#[trigger] sorted@[jv]).x && v.y
                                == hero.y + sorted@[jv].y;
                        assert(off_of(hero, v) == sorted@[jv]);
                        lemma_proj_wf(sorted@[jv]);
                    }
                }
            }
            proof {
                assert(line_from_blockers(shadow_line.shadows@, visible@, *map, hero)) by {
                    if !blocking {
                        assert forall|e: int, r: Ray|
                            0 <= e < shadow_line.shadows@.len() && ray_wf(r) && #[trigger] covers(
                                shadow_line.shadows@[e],
                                r,
                            ) implies exists|b: WorldPos|
                                #[trigger] visible@.contains(b) && tile_blocks_visibility(
                                    map.tile_at(b),
                                ) && ray_in_proj(off_of(hero, b), r) by {
                            assert(covers(line_pre[e], r));
                            let b = choose|b: WorldPos|
                                #[trigger] vis_pre.contains(b) && tile_blocks_visibility(
                                    map.tile_at(b),
                                ) && ray_in_proj(off_of(hero, b), r);
                            assert(visible@.contains(b));
                        }
                    }
                }
                assert forall|p: WorldPos, r: Ray|
                    (exists|j: int|
                        0 <= j < i + 1 && p.x == hero.x + (#[trigger] sorted@[j]).x && p.y
                            == hero.y + sorted@[j].y) && !visible@.contains(p) && ray_wf(r)
                        && #[trigger] covers(proj_main(off_of(hero, p)), r) implies exists|
                    b: WorldPos,
                |
                    #[trigger] visible@.contains(b) && tile_blocks_visibility(map.tile_at(b))
                        && ray_in_proj(off_of(hero, b), r) by {
                    let j = choose|j: int|
                        0 <= j < i + 1 && p.x == hero.x + (#[trigger] sorted@[j]).x && p.y
                            == hero.y + sorted@[j].y;
                    if j == i {
                        assert(p == actual_wp);
                        assert(visible@.contains(p));
                    } else {
                        assert(!vis_pre.contains(p));
                        let b = choose|b: WorldPos|
                            #[trigger] vis_pre.contains(b) && tile_blocks_visibility(
                                map.tile_at(b),
                            ) && ray_in_proj(off_of(hero, b), r);
                        assert(visible@.contains(b));
                    }
                }
                // a tile whose whole projection already lay inside an earlier
                // blocker's shadow could not have been pushed
                assert forall|p: WorldPos, b: WorldPos|
                    in_disc(hero, range as int, p) && in_disc(hero, range as int, b)
                        && #[trigger] visible@.contains(b) && tile_blocks_visibility(
                        map.tile_at(b),
                    ) && sq_of(off_of(hero, b)) < sq_of(off_of(hero, p)) && proj_dominated(
                        off_of(hero, p),
                        off_of(hero, b),
                    ) implies !(#[trigger] visible@.contains(p)) by {
                    if visible@.contains(p) {
                        if p == actual_wp {
                            if b == actual_wp {
                                assert(false);
                            } else {
                                assert(vis_pre.contains(b));
                                let jb = choose|jb: int|
                                    0 <= jb < i && b.x == hero.x + (#[trigger] sorted@[jb]).x
                                        && b.y == hero.y + sorted@[jb].y;
                                assert(off_of(hero, b) == sorted@[jb]);
                                assert(off_of(hero, p) == sorted@[i as int]);
                                lemma_proj_wf(sorted@[jb]);
                                lemma_proj_wf(sorted@[i as int]);
                                assert(part_in_line(line_pre, proj_main(sorted@[jb])));
                                let pm = proj_main(sorted@[i as int]);
                                assert(part_in_line(line_pre, pm)) by {
                                    if sh_contains(proj_main(sorted@[jb]), pm) {
                                        let e = choose|e: int|
                                            0 <= e < line_pre.len() && sh_contains(
                                                #[trigger] line_pre[e],
                                                proj_main(sorted@[jb]),
                                            );
                                        lemma_contains_trans(
                                            line_pre[e],
                                            proj_main(sorted@[jb]),
                                            pm,
                                        );
                                    } else {
                                        let t = proj_split(sorted@[jb])->Some_0;
                                        assert(sh_contains(t, pm));
                                        assert(part_in_line(line_pre, t));
                                        let e = choose|e: int|
                                            0 <= e < line_pre.len() && sh_contains(
                                                #[trigger] line_pre[e],
                                                t,
                                            );
                                        lemma_contains_trans(line_pre[e], t, pm);
                                    }
                                }
                                if proj_split(sorted@[i as int]) is Some {
                                    let ps = proj_split(sorted@[i as int])->Some_0;
                                    assert(part_in_line(line_pre, ps)) by {
                                        if sh_contains(proj_main(sorted@[jb]), ps) {
                                            let e = choose|e: int|
                                                0 <= e < line_pre.len() && sh_contains(
                                                    #[trigger] line_pre[e],
                                                    proj_main(sorted@[jb]),
                                                );
                                            lemma_contains_trans(
                                                line_pre[e],
                                                proj_main(sorted@[jb]),
                                                ps,
                                            );
                                        } else {
                                            let t = proj_split(sorted@[jb])->Some_0;
                                            assert(sh_contains(t, ps));
                                            assert(part_in_line(line_pre, t));
                                            let e = choose|e: int|
                                                0 <= e < line_pre.len() && sh_contains(
                                                    #[trigger] line_pre[e],
                                                    t,
                                                );
                                            lemma_contains_trans(line_pre[e], t, ps);
                                        }
                                    }
                                }
                                assert(proj_split(sorted@[i as int]) matches Some(t2) ==>
                                    part_in_line(line_pre, t2));
                                assert(is_blocked);
                                assert(false);
                            }
                        } else {
                            assert(vis_pre.contains(p));
                            if b == actual_wp {
                                let jp = choose|jp: int|
                                    0 <= jp < i && p.x == hero.x + (#[trigger] sorted@[jp]).x
                                        && p.y == hero.y + sorted@[jp].y;
                                assert(off_of(hero, p) == sorted@[jp]);
                                assert(off_of(hero, b) == sorted@[i as int]);
                                assert(sq_of(sorted@[jp]) <= sq_of(sorted@[i as int]));
                                assert(false);
                            } else {
                                assert(vis_pre.contains(b));
                                assert(!vis_pre.contains(p));
                                assert(false);
                            }
                        }
                    }
                }
            }
        } else {
            proof {
                // the skipped tile's whole projection sat inside an entry of
                // the line, so each of its rays traces back to a blocker
                lemma_proj_wf(sorted@[i as int]);
                let pi = WorldPos {
                    x: (hero.x + sorted@[i as int].x) as i32,
                    y: (hero.y + sorted@[i as int].y) as i32,
                };
                assert(off_of(hero, pi) == sorted@[i as int]);
                let pm = proj_main(sorted@[i as int]);
                let e0 = choose|e0: int|
                    0 <= e0 < line_pre.len() && sh_contains(#[trigger] line_pre[e0], pm);
                assert forall|p: WorldPos, r: Ray|
                    (exists|j: int|
                        0 <= j < i + 1 && p.x == hero.x + (#[trigger] sorted@[j]).x && p.y
                            == hero.y + sorted@[j].y) && !visible@.contains(p) && ray_wf(r)
                        && #[trigger] covers(proj_main(off_of(hero, p)), r) implies exists|
                    b: WorldPos,
                |
                    #[trigger] visible@.contains(b) && tile_blocks_visibility(map.tile_at(b))
                        && ray_in_proj(off_of(hero, b), r) by {
                    let j = choose|j: int|
                        0 <= j < i + 1 && p.x == hero.x + (#[trigger] sorted@[j]).x && p.y
                            == hero.y + sorted@[j].y;
                    if j == i {
                        assert(off_of(hero, p) == sorted@[i as int]);
                        lemma_contains_covers(line_pre[e0], pm, r);
                        assert(covers(line_pre[e0], r));
                    }
                }
            }
        }
        proof {
            if all_clear {
                assert forall|p: WorldPos| #[trigger] visible@.contains(p) implies exists|j: int|
                    0 <= j < i + 1 && p.x == hero.x + sorted@[j].x && p.y == hero.y
                        + sorted@[j].y by {
                    if vis_pre.contains(p) {
                        let j = choose|j: int|
                            0 <= j < i && p.x == hero.x + sorted@[j].x && p.y == hero.y
                                + sorted@[j].y;
                        assert(0 <= j < i + 1 && p.x == hero.x + sorted@[j].x && p.y == hero.y
                            + sorted@[j].y);
                    } else {
                        assert(p.x == hero.x + sorted@[i as int].x && p.y == hero.y
                            + sorted@[i as int].y);
                    }
                }
                assert forall|j: int|
                    0 <= j < i + 1 implies visible@.contains(
                    WorldPos {
                        x: (hero.x + sorted@[j].x) as i32,
                        y: (hero.y + sorted@[j].y) as i32,
                    },
                ) by {
                    let pj = WorldPos {
                        x: (hero.x + sorted@[j].x) as i32,
                        y: (hero.y + sorted@[j].y) as i32,
                    };
                    assert(sorted@.contains(sorted@[j]));
                    assert(pj.x == hero.x + sorted@[j].x && pj.y == hero.y + sorted@[j].y);
                    if j < i {
                        assert(vis_pre.contains(pj));
                        let jj = choose|jj: int| 0 <= jj < vis_pre.len() && vis_pre[jj] == pj;
                        assert(visible@[jj] == pj);
                    } else {
                        assert(visible@[visible@.len() - 1] == pj);
                    }
                }
            }
        }
        i += 1;
    }
    proof {
        assert forall|p: WorldPos, r: Ray|
            in_disc(hero, range as int, p) && ray_wf(r) && !(#[trigger] visible@.contains(p))
                && #[trigger] covers(proj_main(off_of(hero, p)), r) implies exists|b: WorldPos|
                #[trigger] visible@.contains(b) && tile_blocks_visibility(map.tile_at(b))
                    && ray_in_proj(off_of(hero, b), r) by {
            if i == n {
                let off = WorldPos { x: (p.x - hero.x) as i32, y: (p.y - hero.y) as i32 };
                lemma_sq_nonneg(p.x - hero.x);
                lemma_sq_nonneg(p.y - hero.y);
                lemma_abs_from_sq(p.x - hero.x, range as int);
                lemma_abs_from_sq(p.y - hero.y, range as int);
                assert(off.x == p.x - hero.x && off.y == p.y - hero.y);
                assert(sq_of(off) <= (range as int) * (range as int));
                assert(sorted@.contains(off));
                let j = choose|j: int| 0 <= j < sorted@.len() && sorted@[j] == off;
                assert(0 <= j < i && p.x == hero.x + (sorted@[j]).x && p.y == hero.y
                    + sorted@[j].y);
            } else {
                assert(shadow_line.shadows@.len() == 1 && shadow_line.shadows@[0]
                    == RadialShadow::FullCircle);
                assert(covers(RadialShadow::FullCircle, r)) by {
                    reveal(covers);
                }
                assert(covers(shadow_line.shadows@[0], r));
            }
        }
        if all_clear {
            assert(shadow_line.shadows@.len() == 0);
            assert(!(shadow_line.shadows@.len() == 1 && shadow_line.shadows@[0]
                == RadialShadow::FullCircle));
            assert(i == n);
            assert forall|p: WorldPos| #[trigger] visible@.contains(p) <==> in_disc(
                hero,
                range as int,
                p,
            ) by {
                if in_disc(hero, range as int, p) {
                    let off = WorldPos { x: (p.x - hero.x) as i32, y: (p.y - hero.y) as i32 };
                    lemma_sq_nonneg(p.x - hero.x);
                    lemma_sq_nonneg(p.y - hero.y);
                    lemma_abs_from_sq(p.x - hero.x, range as int);
                    lemma_abs_from_sq(p.y - hero.y, range as int);
                    assert(off.x == p.x - hero.x && off.y == p.y - hero.y);
                    assert(sq_of(off) <= (range as int) * (range as int));
                    assert(sorted@.contains(off));
                    let j = choose|j: int| 0 <= j < sorted@.len() && sorted@[j] == off;
                    assert(0 <= j < i && p.x == hero.x + sorted@[j].x && p.y == hero.y
                        + sorted@[j].y);
                    assert(visible@.contains(p));
                }
            }
        }
    }
    visible
}

} // verus!
