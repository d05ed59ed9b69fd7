use vstd::prelude::*;

use std::collections::HashMap;
use std::collections::HashSet;

use crate::components::{pos_ok, pos_ok_strict, WorldPos, MAX_COORD};

verus! {

broadcast use vstd::std_specs::hash::group_hash_axioms;

/// What a tile is made of. Walls both block movement and block sight;
/// floors do neither.
#[derive(Copy, Clone, Eq, PartialEq, Structural, Hash, Debug)]
pub enum TileType {
    Wall,
    Floor,
}

pub open spec fn tile_blocks_visibility(t: TileType) -> bool {
    t == TileType::Wall
}

pub open spec fn tile_blocks_movement(t: TileType) -> bool {
    t == TileType::Wall
}

impl TileType {
    pub fn blocks_visibility(&self) -> (r: bool)
        ensures
            r == tile_blocks_visibility(*self),
    {
        match *self {
            TileType::Wall => true,
            TileType::Floor => false,
        }
    }

    pub fn blocks_movement(&self) -> (r: bool)
        ensures
            r == tile_blocks_movement(*self),
    {
        match *self {
            TileType::Wall => true,
            TileType::Floor => false,
        }
    }
}

/// Bounding box (also used as a rectangle). All coordinates are in world
/// (tile) coordinates, and all bounds are inclusive.
#[derive(Copy, Clone, Eq, PartialEq, Structural, Hash, Debug)]
pub struct BoundingBox {
    pub x_min: i32,
    pub x_max: i32,
    pub y_min: i32,
    pub y_max: i32,
}

pub open spec fn bb_empty(bb: BoundingBox) -> bool {
    bb.x_min > bb.x_max || bb.y_min > bb.y_max
}

/// A box is workable when it is empty or its corners are small enough for
/// tile arithmetic.
pub open spec fn bb_ok(bb: BoundingBox) -> bool {
    bb_empty(bb) || (-MAX_COORD <= bb.x_min && bb.x_max <= MAX_COORD && -MAX_COORD <= bb.y_min
        && bb.y_max <= MAX_COORD)
}

pub open spec fn bb_contains(bb: BoundingBox, p: WorldPos) -> bool {
    bb.x_min <= p.x <= bb.x_max && bb.y_min <= p.y <= bb.y_max
}

/// The box intersection test of `BoundingBox::intersects`, as a predicate:
/// both boxes are non-empty and their spans come within `buffer` tiles of
/// each other on both axes.
pub open spec fn bb_intersects(a: BoundingBox, b: BoundingBox, buffer: int) -> bool {
    &&& !bb_empty(a)
    &&& !bb_empty(b)
    &&& imax(a.x_min as int, b.x_min as int) - buffer <= imin(a.x_max as int, b.x_max as int)
    &&& imax(a.y_min as int, b.y_min as int) - buffer <= imin(a.y_max as int, b.y_max as int)
}

pub open spec fn imin(a: int, b: int) -> int {
    if a <= b {
        a
    } else {
        b
    }
}

pub open spec fn imax(a: int, b: int) -> int {
    if a >= b {
        a
    } else {
        b
    }
}

impl BoundingBox {
    /// The canonical empty box: every coordinate range is inverted.
    pub fn make_empty() -> (r: Self)
        ensures
            bb_empty(r),
            r.x_min == i32::MAX,
            r.y_min == i32::MAX,
            r.x_max == i32::MIN,
            r.y_max == i32::MIN,
    {
        BoundingBox { x_min: i32::MAX, y_min: i32::MAX, x_max: i32::MIN, y_max: i32::MIN }
    }

    /// Grow the box (in place) so it contains the given point.
    pub fn include_pt(&mut self, wp: WorldPos)
        ensures
            final(self).x_min == imin(old(self).x_min as int, wp.x as int),
            final(self).x_max == imax(old(self).x_max as int, wp.x as int),
            final(self).y_min == imin(old(self).y_min as int, wp.y as int),
            final(self).y_max == imax(old(self).y_max as int, wp.y as int),
    {
        if wp.x < self.x_min {
            self.x_min = wp.x;
        }
        if wp.x > self.x_max {
            self.x_max = wp.x;
        }
        if wp.y < self.y_min {
            self.y_min = wp.y;
        }
        if wp.y > self.y_max {
            self.y_max = wp.y;
        }
    }

    /// Checks whether two boxes intersect each other (have any tiles in
    /// common). The `required_buffer` parameter additionally demands that
    /// many tiles of neutral space between them: zero just means the boxes
    /// cannot overlap, one means there must be a free tile between them,
    /// and so on.
    pub fn intersects(&self, other: &BoundingBox, required_buffer: i32) -> (r: bool)
        requires
            bb_ok(*self),
            bb_ok(*other),
            0 <= required_buffer <= MAX_COORD,
        ensures
            r == bb_intersects(*self, *other, required_buffer as int),
    {
        if self.empty() || other.empty() {
            return false;
        }
        let x_left = if self.x_min >= other.x_min {
            self.x_min
        } else {
            other.x_min
        };
        let x_right = if self.x_max <= other.x_max {
            self.x_max
        } else {
            other.x_max
        };
        let y_left = if self.y_min >= other.y_min {
            self.y_min
        } else {
            other.y_min
        };
        let y_right = if self.y_max <= other.y_max {
            self.y_max
        } else {
            other.y_max
        };
        x_left - required_buffer <= x_right && y_left - required_buffer <= y_right
    }

    pub fn width(&self) -> (r: i32)
        requires
            bb_ok(*self),
        ensures
            r == if bb_empty(*self) {
                0int
            } else {
                self.x_max - self.x_min + 1
            },
    {
        if self.empty() {
            0
        } else {
            self.x_max - self.x_min + 1
        }
    }

    pub fn height(&self) -> (r: i32)
        requires
            bb_ok(*self),
        ensures
            r == if bb_empty(*self) {
                0int
            } else {
                self.y_max - self.y_min + 1
            },
    {
        if self.empty() {
            0
        } else {
            self.y_max - self.y_min + 1
        }
    }

    pub fn empty(&self) -> (r: bool)
        ensures
            r == bb_empty(*self),
    {
        self.x_min > self.x_max || self.y_min > self.y_max
    }

    /// Midpoint of the box, rounded toward the low corner. The box must be
    /// non-empty.
    pub fn center(&self) -> (r: (i32, i32))
        requires
            bb_ok(*self),
            !bb_empty(*self),
        ensures
            r.0 == self.x_min + (self.x_max - self.x_min + 1) / 2,
            r.1 == self.y_min + (self.y_max - self.y_min + 1) / 2,
            self.x_min <= r.0 <= self.x_max,
            self.y_min <= r.1 <= self.y_max,
            bb_contains(*self, WorldPos { x: r.0, y: r.1 }),
    {
        let w = self.width();
        let h = self.height();
        (self.x_min + w / 2, self.y_min + h / 2)
    }
}

impl Default for BoundingBox {
    fn default() -> (r: Self)
        ensures
            bb_empty(r),
    {
        BoundingBox::make_empty()
    }
}

/// The key under which a position is stored in the tile and visibility
/// tables: an injective packing of both coordinates into one `u64`.
pub open spec fn pos_key(p: WorldPos) -> u64 {
    ((p.x + 0x8000_0000) * 0x1_0000_0000 + (p.y + 0x8000_0000)) as u64
}

pub proof fn lemma_pos_key_injective(p: WorldPos, q: WorldPos)
    ensures
        pos_key(p) == pos_key(q) ==> p == q,
{
    let pi = (p.x + 0x8000_0000) * 0x1_0000_0000 + (p.y + 0x8000_0000);
    let qi = (q.x + 0x8000_0000) * 0x1_0000_0000 + (q.y + 0x8000_0000);
    assert(0 <= pi < 0x1_0000_0000_0000_0000);
    assert(0 <= qi < 0x1_0000_0000_0000_0000);
    if pos_key(p) == pos_key(q) {
        assert(pi == qi);
        assert(p.x == q.x && p.y == q.y) by {
            assert((p.x + 0x8000_0000) * 0x1_0000_0000 == pi - (p.y + 0x8000_0000));
            assert((q.x + 0x8000_0000) * 0x1_0000_0000 == qi - (q.y + 0x8000_0000));
        }
    }
}

pub(crate) fn pos_key_exec(p: WorldPos) -> (k: u64)
    ensures
        k == pos_key(p),
{
    let xx: u64 = (p.x as i64 + 0x8000_0000) as u64;
    let yy: u64 = (p.y as i64 + 0x8000_0000) as u64;
    xx * 0x1_0000_0000 + yy
}

/// Any passable position has been placed, so its coordinates are workable.
pub proof fn lemma_passable_pos_ok(m: GameMap, q: WorldPos)
    requires
        m.wf(),
        m.passable_spec(q),
    ensures
        pos_ok(q),
        m.populated_at(q),
{
    assert(m.tiles@.contains_key(pos_key(q)));
    let i = choose|i: int|
        0 <= i < m.populated@.len() && pos_key(#[trigger] m.populated@[i]) == pos_key(q);
    lemma_pos_key_injective(m.populated@[i], q);
}

/// The grid: a sparse tile table with a default of `Wall`, the rooms carved
/// into it, the bounding box of everything placed so far, and the two
/// visibility sets ("currently visible" and "ever seen").
pub struct GameMap {
    pub default_tile: TileType,
    pub tiles: HashMap<u64, TileType>,
    /// Every position ever placed, in insertion order, without duplicates;
    /// mirrors the key set of `tiles`.
    pub populated: Vec<WorldPos>,
    pub rooms: Vec<BoundingBox>,
    pub bounds: BoundingBox,
    pub visible: HashSet<u64>,
    pub seen: HashSet<u64>,
}

/// Whether `q` lies in the block of nine tiles centered on `p`.
pub open spec fn in_block3(p: WorldPos, q: WorldPos) -> bool {
    p.x - 1 <= q.x <= p.x + 1 && p.y - 1 <= q.y <= p.y + 1
}

impl GameMap {
    /// The tile at a position, defaulting to the default tile (a wall) where
    /// nothing was placed.
    pub open spec fn tile_at(self, p: WorldPos) -> TileType {
        if self.tiles@.contains_key(pos_key(p)) {
            self.tiles@[pos_key(p)]
        } else {
            self.default_tile
        }
    }

    pub open spec fn populated_at(self, p: WorldPos) -> bool {
        self.tiles@.contains_key(pos_key(p))
    }

    pub open spec fn is_visible(self, p: WorldPos) -> bool {
        self.visible@.contains(pos_key(p))
    }

    pub open spec fn is_seen(self, p: WorldPos) -> bool {
        self.seen@.contains(pos_key(p))
    }

    pub open spec fn passable_spec(self, p: WorldPos) -> bool {
        !tile_blocks_movement(self.tile_at(p))
    }

    /// Internal consistency: the default is a wall, and `populated` lists
    /// exactly the placed positions, once each, all with workable
    /// coordinates.
    pub open spec fn wf(self) -> bool {
        &&& self.default_tile == TileType::Wall
        &&& forall|i: int|
            0 <= i < self.populated@.len() ==> pos_ok(#[trigger] self.populated@[i])
        &&& forall|i: int|
            0 <= i < self.populated@.len() ==> self.tiles@.contains_key(
                pos_key(#[trigger] self.populated@[i]),
            )
        &&& forall|k: u64|
            self.tiles@.contains_key(k) ==> exists|i: int|
                0 <= i < self.populated@.len() && pos_key(#[trigger] self.populated@[i]) == k
        &&& forall|i: int, j: int|
            0 <= i < j < self.populated@.len() ==> #[trigger] self.populated@[i]
                != #[trigger] self.populated@[j]
    }

    pub fn new() -> (r: Self)
        ensures
            r.wf(),
            r.tiles@ == Map::<u64, TileType>::empty(),
            r.populated@ == Seq::<WorldPos>::empty(),
            r.rooms@ == Seq::<BoundingBox>::empty(),
            bb_empty(r.bounds),
            r.visible@ == Set::<u64>::empty(),
            r.seen@ == Set::<u64>::empty(),
            forall|p: WorldPos| r.tile_at(p) == TileType::Wall,
            forall|p: WorldPos| !r.populated_at(p),
            forall|p: WorldPos| !r.is_visible(p) && !r.is_seen(p),
    {
        GameMap {
            default_tile: TileType::Wall,
            tiles: HashMap::new(),
            populated: Vec::new(),
            rooms: Vec::new(),
            bounds: BoundingBox::make_empty(),
            seen: HashSet::new(),
            visible: HashSet::new(),
        }
    }

    pub fn bounding_box(&self) -> (r: BoundingBox)
        ensures
            r == self.bounds,
    {
        self.bounds
    }

    pub fn get_tile(&self, wp: WorldPos) -> (r: TileType)
        ensures
            r == self.tile_at(wp),
    {
        match self.tiles.get(&pos_key_exec(wp)) {
            Some(t) => *t,
            None => self.default_tile,
        }
    }

    pub fn passable(&self, wp: WorldPos) -> (r: bool)
        ensures
            r == self.passable_spec(wp),
    {
        !self.get_tile(wp).blocks_movement()
    }

    /// Place a tile only where nothing was placed before, and grow the
    /// bounding box to include the position either way.
    pub fn set_if_empty(&mut self, wp: WorldPos, tile: TileType)
        requires
            old(self).wf(),
            pos_ok(wp),
        ensures
            final(self).wf(),
            forall|q: WorldPos|
                final(self).tile_at(q) == if q == wp && !old(self).populated_at(wp) {
                    tile
                } else {
                    old(self).tile_at(q)
                },
            forall|q: WorldPos|
                final(self).populated_at(q) == (old(self).populated_at(q) || q == wp),
            final(self).bounds.x_min == imin(old(self).bounds.x_min as int, wp.x as int),
            final(self).bounds.x_max == imax(old(self).bounds.x_max as int, wp.x as int),
            final(self).bounds.y_min == imin(old(self).bounds.y_min as int, wp.y as int),
            final(self).bounds.y_max == imax(old(self).bounds.y_max as int, wp.y as int),
            final(self).visible@ == old(self).visible@,
            final(self).seen@ == old(self).seen@,
            final(self).rooms@ == old(self).rooms@,
            final(self).default_tile == old(self).default_tile,
            final(self).populated@ == if old(self).populated_at(wp) {
                old(self).populated@
            } else {
                old(self).populated@.push(wp)
            },
    {
        self.bounds.include_pt(wp);
        let k = pos_key_exec(wp);
        if !self.tiles.contains_key(&k) {
            self.tiles.insert(k, tile);
            self.populated.push(wp);
            proof {
                assert forall|q: WorldPos|
                    self.tile_at(q) == if q == wp && !old(self).populated_at(wp) {
                        tile
                    } else {
                        old(self).tile_at(q)
                    } by {
                    lemma_pos_key_injective(q, wp);
                }
                assert forall|q: WorldPos|
                    self.populated_at(q) == (old(self).populated_at(q) || q == wp) by {
                    lemma_pos_key_injective(q, wp);
                }
                assert forall|i: int, j: int|
                    0 <= i < j < self.populated@.len() implies #[trigger] self.populated@[i]
                    != #[trigger] self.populated@[j] by {
                    if j == self.populated@.len() - 1 {
                        // the fresh entry cannot repeat an old one: the old
                        // entry's key is present, the fresh key was not
                        assert(old(self).populated@[i] == self.populated@[i]);
                        assert(old(self).tiles@.contains_key(pos_key(old(self).populated@[i])));
                    }
                }
                assert forall|kk: u64| self.tiles@.contains_key(kk) implies exists|i: int|
                    0 <= i < self.populated@.len() && pos_key(#[trigger] self.populated@[i])
                        == kk by {
                    if kk == pos_key(wp) {
                        assert(self.populated@[self.populated@.len() - 1] == wp);
                    } else {
                        let i = choose|i: int|
                            0 <= i < old(self).populated@.len() && pos_key(
                                #[trigger] old(self).populated@[i],
                            ) == kk;
                        assert(self.populated@[i] == old(self).populated@[i]);
                    }
                }
                assert(self.wf());
            }
        }
    }

    /// Place a tile, back-filling the neighboring cells with the
    /// default tile where they are still unset, so no placed tile ever has
    /// undefined neighbors. The bounding box grows to cover the whole block.
    #[verifier::rlimit(60)]
    pub fn set_tile(&mut self, wp: WorldPos, tile: TileType)
        requires
            old(self).wf(),
            pos_ok_strict(wp),
        ensures
            final(self).wf(),
            forall|q: WorldPos|
                final(self).tile_at(q) == if q == wp {
                    tile
                } else {
                    old(self).tile_at(q)
                },
            forall|q: WorldPos|
                final(self).populated_at(q) == (old(self).populated_at(q) || in_block3(wp, q)),
            final(self).bounds.x_min == imin(old(self).bounds.x_min as int, wp.x - 1),
            final(self).bounds.x_max == imax(old(self).bounds.x_max as int, wp.x + 1),
            final(self).bounds.y_min == imin(old(self).bounds.y_min as int, wp.y - 1),
            final(self).bounds.y_max == imax(old(self).bounds.y_max as int, wp.y + 1),
            final(self).visible@ == old(self).visible@,
            final(self).seen@ == old(self).seen@,
            final(self).rooms@ == old(self).rooms@,
            final(self).default_tile == old(self).default_tile,
    {
        let default = self.default_tile;
        self.set_if_empty(WorldPos { x: wp.x - 1, y: wp.y - 1 }, default);
        self.set_if_empty(WorldPos { x: wp.x - 1, y: wp.y }, default);
        self.set_if_empty(WorldPos { x: wp.x - 1, y: wp.y + 1 }, default);
        self.set_if_empty(WorldPos { x: wp.x, y: wp.y - 1 }, default);
        self.set_if_empty(WorldPos { x: wp.x, y: wp.y }, default);
        self.set_if_empty(WorldPos { x: wp.x, y: wp.y + 1 }, default);
        self.set_if_empty(WorldPos { x: wp.x + 1, y: wp.y - 1 }, default);
        self.set_if_empty(WorldPos { x: wp.x + 1, y: wp.y }, default);
        self.set_if_empty(WorldPos { x: wp.x + 1, y: wp.y + 1 }, default);
        self.force_tile(wp, tile);
    }

    /// Overwrite a tile that is already placed.
    fn force_tile(&mut self, wp: WorldPos, tile: TileType)
        requires
            old(self).wf(),
            old(self).populated_at(wp),
        ensures
            final(self).wf(),
            forall|q: WorldPos|
                final(self).tile_at(q) == if q == wp {
                    tile
                } else {
                    old(self).tile_at(q)
                },
            forall|q: WorldPos| final(self).populated_at(q) == old(self).populated_at(q),
            final(self).bounds == old(self).bounds,
            final(self).visible@ == old(self).visible@,
            final(self).seen@ == old(self).seen@,
            final(self).rooms@ == old(self).rooms@,
            final(self).default_tile == old(self).default_tile,
            final(self).populated@ == old(self).populated@,
    {
        let k = pos_key_exec(wp);
        self.tiles.insert(k, tile);
        proof {
            assert forall|q: WorldPos|
                self.tile_at(q) == if q == wp {
                    tile
                } else {
                    old(self).tile_at(q)
                } by {
                lemma_pos_key_injective(q, wp);
            }
            assert forall|q: WorldPos| self.populated_at(q) == old(self).populated_at(q) by {
                lemma_pos_key_injective(q, wp);
            }
            assert forall|kk: u64| self.tiles@.contains_key(kk) implies exists|i: int|
                0 <= i < self.populated@.len() && pos_key(#[trigger] self.populated@[i]) == kk by {
                assert(old(self).tiles@.contains_key(kk));
                let i = choose|i: int|
                    0 <= i < old(self).populated@.len() && pos_key(
                        #[trigger] old(self).populated@[i],
                    ) == kk;
                assert(0 <= i < self.populated@.len() && pos_key(self.populated@[i]) == kk);
            }
            assert(self.wf());
        }
    }

    /// Mark a single position as currently visible (and therefore seen).
    pub fn mark_visible(&mut self, wp: WorldPos)
        ensures
            forall|q: WorldPos| final(self).is_visible(q) == (old(self).is_visible(q) || q == wp),
            forall|q: WorldPos| final(self).is_seen(q) == (old(self).is_seen(q) || q == wp),
            final(self).tiles@ == old(self).tiles@,
            final(self).populated@ == old(self).populated@,
            final(self).rooms@ == old(self).rooms@,
            final(self).bounds == old(self).bounds,
            final(self).default_tile == old(self).default_tile,
    {
        let k = pos_key_exec(wp);
        self.visible.insert(k);
        self.seen.insert(k);
        proof {
            assert forall|q: WorldPos|
                final(self).is_visible(q) == (old(self).is_visible(q) || q == wp) by {
                lemma_pos_key_injective(q, wp);
            }
            assert forall|q: WorldPos|
                final(self).is_seen(q) == (old(self).is_seen(q) || q == wp) by {
                lemma_pos_key_injective(q, wp);
            }
        }
    }

    /// Replace the currently-visible set with exactly the given positions;
    /// the seen set only grows.
    pub fn set_visible_exact(&mut self, visible: &Vec<WorldPos>)
        ensures
            forall|q: WorldPos| final(self).is_visible(q) == visible@.contains(q),
            forall|q: WorldPos|
                final(self).is_seen(q) == (old(self).is_seen(q) || visible@.contains(q)),
            final(self).tiles@ == old(self).tiles@,
            final(self).populated@ == old(self).populated@,
            final(self).rooms@ == old(self).rooms@,
            final(self).bounds == old(self).bounds,
            final(self).default_tile == old(self).default_tile,
    {
        self.visible.clear();
        let n = visible.len();
        let mut i: usize = 0;
        while i < n
            invariant
                n == visible@.len(),
                i <= n,
                forall|q: WorldPos|
                    self.is_visible(q) == exists|j: int| 0 <= j < i && visible@[j] == q,
                forall|q: WorldPos|
                    self.is_seen(q) == (old(self).is_seen(q) || exists|j: int|
                        0 <= j < i && visible@[j] == q),
                self.tiles@ == old(self).tiles@,
                self.populated@ == old(self).populated@,
                self.rooms@ == old(self).rooms@,
                self.bounds == old(self).bounds,
                self.default_tile == old(self).default_tile,
            decreases n - i,
        {
            let wp = visible[i];
            self.mark_visible(wp);
            i += 1;
        }
        proof {
            assert forall|q: WorldPos| final(self).is_visible(q) == visible@.contains(q) by {
                if visible@.contains(q) {
                    let j = choose|j: int| 0 <= j < visible@.len() && visible@[j] == q;
                    assert(0 <= j < i && visible@[j] == q);
                }
            }
            assert forall|q: WorldPos|
                final(self).is_seen(q) == (old(self).is_seen(q) || visible@.contains(q)) by {
                if visible@.contains(q) {
                    let j = choose|j: int| 0 <= j < visible@.len() && visible@[j] == q;
                    assert(0 <= j < i && visible@[j] == q);
                }
            }
        }
    }

    /// All placed tiles, with their visibility flags, in placement order.
    pub fn tiles(&self) -> (r: Vec<TileData>)
        requires
            self.wf(),
        ensures
            r@.len() == self.populated@.len(),
            forall|i: int|
                0 <= i < r@.len() ==> #[trigger] r@[i] == (TileData {
                    world_pos: self.populated@[i],
                    tile_type: self.tile_at(self.populated@[i]),
                    seen: self.is_seen(self.populated@[i]),
                    visible: self.is_visible(self.populated@[i]),
                }),
    {
        let mut out: Vec<TileData> = Vec::new();
        let n = self.populated.len();
        let mut i: usize = 0;
        while i < n
            invariant
                self.wf(),
                n == self.populated@.len(),
                i <= n,
                out@.len() == i,
                forall|j: int|
                    0 <= j < i ==> #[trigger] out@[j] == (TileData {
                        world_pos: self.populated@[j],
                        tile_type: self.tile_at(self.populated@[j]),
                        seen: self.is_seen(self.populated@[j]),
                        visible: self.is_visible(self.populated@[j]),
                    }),
            decreases n - i,
        {
            let wp = self.populated[i];
            let k = pos_key_exec(wp);
            let tile_type = self.get_tile(wp);
            let seen = self.seen.contains(&k);
            let visible = self.visible.contains(&k);
            out.push(TileData { world_pos: wp, tile_type, seen, visible });
            i += 1;
        }
        out
    }

    /// The four orthogonal neighbors of a position, as the enumeration
    /// [below, left, above, right], restricted to passable tiles.
    pub open spec fn adjacent_spec(self, p: WorldPos) -> Seq<WorldPos> {
        nbr_keep(self, WorldPos { x: p.x, y: (p.y - 1) as i32 }) + nbr_keep(
            self,
            WorldPos { x: (p.x - 1) as i32, y: p.y },
        ) + nbr_keep(self, WorldPos { x: p.x, y: (p.y + 1) as i32 }) + nbr_keep(
            self,
            WorldPos { x: (p.x + 1) as i32, y: p.y },
        )
    }

    /// Returns adjacent tiles which are passable.
    pub fn adjacent(&self, wp: WorldPos) -> (r: Vec<WorldPos>)
        requires
            pos_ok(wp),
        ensures
            r@ == self.adjacent_spec(wp),
    {
        let mut out: Vec<WorldPos> = Vec::new();
        let below = WorldPos { x: wp.x, y: wp.y - 1 };
        let left = WorldPos { x: wp.x - 1, y: wp.y };
        let above = WorldPos { x: wp.x, y: wp.y + 1 };
        let right = WorldPos { x: wp.x + 1, y: wp.y };
        if self.passable(below) {
            out.push(below);
        }
        if self.passable(left) {
            out.push(left);
        }
        if self.passable(above) {
            out.push(above);
        }
        if self.passable(right) {
            out.push(right);
        }
        proof {
            assert(out@ =~= self.adjacent_spec(wp));
        }
        out
    }
}

pub open spec fn nbr_keep(m: GameMap, q: WorldPos) -> Seq<WorldPos> {
    if m.passable_spec(q) {
        seq![q]
    } else {
        Seq::empty()
    }
}

/// Orthogonal adjacency between two positions (step of length one).
pub open spec fn step_adj(p: WorldPos, q: WorldPos) -> bool {
    (q.x == p.x && (q.y == p.y - 1 || q.y == p.y + 1)) || (q.y == p.y && (q.x == p.x - 1 || q.x
        == p.x + 1))
}

/// Membership in the adjacency enumeration is exactly "one orthogonal step
/// away and passable".
pub proof fn lemma_adjacent_member(m: GameMap, p: WorldPos, q: WorldPos)
    requires
        pos_ok(p),
    ensures
        m.adjacent_spec(p).contains(q) <==> (step_adj(p, q) && m.passable_spec(q)),
{
    let s = m.adjacent_spec(p);
    if step_adj(p, q) && m.passable_spec(q) {
        if q.y == p.y - 1 && q.x == p.x {
            assert(s[0] == q);
        } else if q.x == p.x - 1 && q.y == p.y {
            let i = nbr_keep(m, WorldPos { x: p.x, y: (p.y - 1) as i32 }).len() as int;
            assert(s[i] == q);
        } else if q.y == p.y + 1 && q.x == p.x {
            let i = (nbr_keep(m, WorldPos { x: p.x, y: (p.y - 1) as i32 }).len() + nbr_keep(
                m,
                WorldPos { x: (p.x - 1) as i32, y: p.y },
            ).len()) as int;
            assert(s[i] == q);
        } else {
            let i = (nbr_keep(m, WorldPos { x: p.x, y: (p.y - 1) as i32 }).len() + nbr_keep(
                m,
                WorldPos { x: (p.x - 1) as i32, y: p.y },
            ).len() + nbr_keep(m, WorldPos { x: p.x, y: (p.y + 1) as i32 }).len()) as int;
            assert(s[i] == q);
        }
        assert(s.contains(q));
    }
    if s.contains(q) {
        let i = choose|i: int| 0 <= i < s.len() && s[i] == q;
        assert(step_adj(p, q) && m.passable_spec(q));
    }
}

/// One placed tile together with its visibility flags, as handed to a
/// presentation layer.
#[derive(Copy, Clone, Eq, PartialEq, Structural, Debug)]
pub struct TileData {
    pub world_pos: WorldPos,
    pub tile_type: TileType,
    pub seen: bool,
    pub visible: bool,
}

pub const MAP_WIDTH_TILES: i32 = 41;

pub const MAP_HEIGHT_TILES: i32 = 41;

pub const MIN_ROOM_SIZE: i32 = 3;

pub const MAX_ROOM_SIZE: i32 = 5;

pub const MAX_ROOMS: usize = 30;

/// Relies on rand's `Rng::gen_range` over a thread-local generator: the call
/// panics only on an empty range and returns a value drawn from the half-open
/// range it is given.
#[verifier::external_body]
pub(crate) fn rand_range(lo: i32, hi: i32) -> (r: i32)
    requires
        lo < hi,
    ensures
        lo <= r < hi,
{
    rand::Rng::gen_range(&mut rand::thread_rng(), lo..hi)
}

/// A room that fits inside the map with a one-tile wall border to spare.
pub open spec fn room_in_map(bb: BoundingBox) -> bool {
    1 <= bb.x_min <= bb.x_max < MAP_WIDTH_TILES - 1 && 1 <= bb.y_min <= bb.y_max
        < MAP_HEIGHT_TILES - 1
}

/// Well-formedness of the grid depends only on the tile table, the placement
/// list, and the default tile.
pub proof fn lemma_wf_transfer(a: GameMap, b: GameMap)
    requires
        a.wf(),
        b.tiles@ == a.tiles@,
        b.populated@ == a.populated@,
        b.default_tile == a.default_tile,
    ensures
        b.wf(),
{
    assert forall|k: u64| b.tiles@.contains_key(k) implies exists|i: int|
        0 <= i < b.populated@.len() && pos_key(#[trigger] b.populated@[i]) == k by {
        assert(a.tiles@.contains_key(k));
        let i = choose|i: int|
            0 <= i < a.populated@.len() && pos_key(#[trigger] a.populated@[i]) == k;
        assert(0 <= i < b.populated@.len() && pos_key(b.populated@[i]) == k);
    }
}

/// Carve one room: every tile inside the box becomes floor, and the room is
/// recorded on the map.
#[verifier::loop_isolation(false)]
fn apply_room_to_map(map: &mut GameMap, room: BoundingBox)
    requires
        old(map).wf(),
        room_in_map(room),
    ensures
        final(map).wf(),
        forall|q: WorldPos|
            final(map).tile_at(q) == if bb_contains(room, q) {
                TileType::Floor
            } else {
                old(map).tile_at(q)
            },
        final(map).rooms@ == old(map).rooms@.push(room),
        final(map).visible@ == old(map).visible@,
        final(map).seen@ == old(map).seen@,
        final(map).default_tile == old(map).default_tile,
{
    let ghost m0 = *map;
    map.rooms.push(room);
    proof {
        lemma_wf_transfer(m0, *map);
    }
    let mut x = room.x_min;
    while x < room.x_max + 1
        invariant
            map.wf(),
            room_in_map(room),
            room.x_min <= x <= room.x_max + 1,
            forall|q: WorldPos|
                (#[trigger] map.tile_at(q)) == if bb_contains(room, q) && q.x < x {
                    TileType::Floor
                } else {
                    m0.tile_at(q)
                },
            map.rooms@ == m0.rooms@.push(room),
            map.visible@ == m0.visible@,
            map.seen@ == m0.seen@,
            map.default_tile == m0.default_tile,
        decreases room.x_max + 1 - x,
    {
        let mut y = room.y_min;
        while y < room.y_max + 1
            invariant
                map.wf(),
                room_in_map(room),
                room.x_min <= x <= room.x_max,
                room.y_min <= y <= room.y_max + 1,
                forall|q: WorldPos|
                    (#[trigger] map.tile_at(q)) == if bb_contains(room, q) && (q.x < x || (q.x == x
                        && q.y < y)) {
                        TileType::Floor
                    } else {
                        m0.tile_at(q)
                    },
                map.rooms@ == m0.rooms@.push(room),
                map.visible@ == m0.visible@,
                map.seen@ == m0.seen@,
                map.default_tile == m0.default_tile,
            decreases room.y_max + 1 - y,
        {
            map.set_tile(WorldPos { x, y }, TileType::Floor);
            y += 1;
        }
        x += 1;
    }
}

/// Carve a horizontal corridor of floor between two columns at a fixed row.
fn apply_horizontal_tunnel(map: &mut GameMap, old_x: i32, new_x: i32, y: i32)
    requires
        old(map).wf(),
        -MAX_COORD < old_x < MAX_COORD,
        -MAX_COORD < new_x < MAX_COORD,
        -MAX_COORD < y < MAX_COORD,
    ensures
        final(map).wf(),
        forall|q: WorldPos|
            final(map).tile_at(q) == if q.y == y && imin(old_x as int, new_x as int) <= q.x
                <= imax(old_x as int, new_x as int) {
                TileType::Floor
            } else {
                old(map).tile_at(q)
            },
        final(map).rooms@ == old(map).rooms@,
        final(map).visible@ == old(map).visible@,
        final(map).seen@ == old(map).seen@,
        final(map).default_tile == old(map).default_tile,
{
    let ghost m0 = *map;
    let lo = if old_x <= new_x { old_x } else { new_x };
    let hi = if old_x <= new_x { new_x } else { old_x };
    let mut x = lo;
    while x < hi + 1
        invariant
            map.wf(),
            lo == imin(old_x as int, new_x as int),
            hi == imax(old_x as int, new_x as int),
            -MAX_COORD < lo,
            hi < MAX_COORD,
            -MAX_COORD < y < MAX_COORD,
            lo <= x <= hi + 1,
            forall|q: WorldPos|
                (#[trigger] map.tile_at(q)) == if q.y == y && lo <= q.x < x {
                    TileType::Floor
                } else {
                    m0.tile_at(q)
                },
            map.rooms@ == m0.rooms@,
            map.visible@ == m0.visible@,
            map.seen@ == m0.seen@,
            map.default_tile == m0.default_tile,
        decreases hi + 1 - x,
    {
        map.set_tile(WorldPos { x, y }, TileType::Floor);
        x += 1;
    }
}

/// Carve a vertical corridor of floor between two rows at a fixed column.
fn apply_vertical_tunnel(map: &mut GameMap, old_y: i32, new_y: i32, x: i32)
    requires
        old(map).wf(),
        -MAX_COORD < old_y < MAX_COORD,
        -MAX_COORD < new_y < MAX_COORD,
        -MAX_COORD < x < MAX_COORD,
    ensures
        final(map).wf(),
        forall|q: WorldPos|
            final(map).tile_at(q) == if q.x == x && imin(old_y as int, new_y as int) <= q.y
                <= imax(old_y as int, new_y as int) {
                TileType::Floor
            } else {
                old(map).tile_at(q)
            },
        final(map).rooms@ == old(map).rooms@,
        final(map).visible@ == old(map).visible@,
        final(map).seen@ == old(map).seen@,
        final(map).default_tile == old(map).default_tile,
{
    let ghost m0 = *map;
    let lo = if old_y <= new_y { old_y } else { new_y };
    let hi = if old_y <= new_y { new_y } else { old_y };
    let mut y = lo;
    while y < hi + 1
        invariant
            map.wf(),
            lo == imin(old_y as int, new_y as int),
            hi == imax(old_y as int, new_y as int),
            -MAX_COORD < lo,
            hi < MAX_COORD,
            -MAX_COORD < x < MAX_COORD,
            lo <= y <= hi + 1,
            forall|q: WorldPos|
                (#[trigger] map.tile_at(q)) == if q.x == x && lo <= q.y < y {
                    TileType::Floor
                } else {
                    m0.tile_at(q)
                },
            map.rooms@ == m0.rooms@,
            map.visible@ == m0.visible@,
            map.seen@ == m0.seen@,
            map.default_tile == m0.default_tile,
        decreases hi + 1 - y,
    {
        map.set_tile(WorldPos { x, y }, TileType::Floor);
        y += 1;
    }
}

/// The midpoint of a box, rounded toward the low corner, as a position.
pub open spec fn bb_center(bb: BoundingBox) -> WorldPos {
    WorldPos {
        x: (bb.x_min + (bb.x_max - bb.x_min + 1) / 2) as i32,
        y: (bb.y_min + (bb.y_max - bb.y_min + 1) / 2) as i32,
    }
}

/// A horizontal run of floor between two columns at a fixed row.
pub open spec fn h_floor(m: GameMap, x1: int, x2: int, y: int) -> bool {
    forall|q: WorldPos|
        q.y == y && imin(x1, x2) <= q.x <= imax(x1, x2) ==> #[trigger] m.tile_at(q)
            == TileType::Floor
}

/// A vertical run of floor between two rows at a fixed column.
pub open spec fn v_floor(m: GameMap, y1: int, y2: int, x: int) -> bool {
    forall|q: WorldPos|
        q.x == x && imin(y1, y2) <= q.y <= imax(y1, y2) ==> #[trigger] m.tile_at(q)
            == TileType::Floor
}

/// An L-shaped corridor of floor joining two positions: a horizontal run
/// from the first and a vertical run into the second, or the other way
/// around.
pub open spec fn l_tunnel(m: GameMap, a: WorldPos, b: WorldPos) -> bool {
    (h_floor(m, a.x as int, b.x as int, a.y as int) && v_floor(
        m,
        a.y as int,
        b.y as int,
        b.x as int,
    )) || (v_floor(m, a.y as int, b.y as int, a.x as int) && h_floor(
        m,
        a.x as int,
        b.x as int,
        b.y as int,
    ))
}

/// Generate a fresh dungeon: up to a fixed number of non-overlapping rooms
/// carved as floor, consecutive room centers joined by L-shaped corridors,
/// everything inside a solid wall border.
pub fn make_new_map() -> (r: (GameMap, Vec<BoundingBox>))
    ensures
        r.0.wf(),
        1 <= r.1@.len() <= MAX_ROOMS,
        forall|i: int| 0 <= i < r.1@.len() ==> room_in_map(#[trigger] r.1@[i]),
        forall|i: int, j: int|
            0 <= i < j < r.1@.len() ==> !bb_intersects(#[trigger] r.1@[i], #[trigger] r.1@[j], 1),
        forall|i: int, q: WorldPos|
            0 <= i < r.1@.len() && bb_contains(#[trigger] r.1@[i], q) ==> #[trigger] r.0.tile_at(q)
                == TileType::Floor,
        forall|q: WorldPos|
            r.0.tile_at(q) == TileType::Floor ==> 1 <= q.x < MAP_WIDTH_TILES - 1 && 1 <= q.y
                < MAP_HEIGHT_TILES - 1,
        forall|i: int|
            0 <= i < r.1@.len() - 1 ==> l_tunnel(
                r.0,
                bb_center(#[trigger] r.1@[i]),
                bb_center(r.1@[i + 1]),
            ),
        r.0.rooms@ == r.1@,
{
    let mut map = GameMap::new();
    let mut rooms: Vec<BoundingBox> = Vec::new();

    let mut attempt: usize = 0;
    while attempt < MAX_ROOMS
        invariant
            map.wf(),
            rooms@.len() <= attempt,
            attempt >= 1 ==> rooms@.len() >= 1,
            forall|i: int| 0 <= i < rooms@.len() ==> room_in_map(#[trigger] rooms@[i]),
            forall|i: int, j: int|
                0 <= i < j < rooms@.len() ==> !bb_intersects(
                    #[trigger] rooms@[i],
                    #[trigger] rooms@[j],
                    1,
                ),
            forall|i: int, q: WorldPos|
                0 <= i < rooms@.len() && bb_contains(#[trigger] rooms@[i], q) ==> #[trigger] map.tile_at(q)
                    == TileType::Floor,
            forall|q: WorldPos|
                (#[trigger] map.tile_at(q)) == TileType::Floor ==> 1 <= q.x < MAP_WIDTH_TILES - 1
                    && 1 <= q.y < MAP_HEIGHT_TILES - 1,
            map.rooms@ == rooms@,
            attempt <= MAX_ROOMS,
        decreases MAX_ROOMS - attempt,
    {
        let w = rand_range(MIN_ROOM_SIZE, MAX_ROOM_SIZE + 1);
        let h = rand_range(MIN_ROOM_SIZE, MAX_ROOM_SIZE + 1);
        let x = rand_range(1, MAP_WIDTH_TILES - w - 1);
        let y = rand_range(1, MAP_HEIGHT_TILES - h - 1);

        let room_box = BoundingBox { x_min: x, x_max: x + w - 1, y_min: y, y_max: y + h - 1 };

        let mut ok = true;
        let mut i: usize = 0;
        while i < rooms.len() && ok
            invariant
                i <= rooms@.len(),
                room_in_map(room_box),
                forall|j: int| 0 <= j < rooms@.len() ==> room_in_map(#[trigger] rooms@[j]),
                ok ==> forall|j: int|
                    0 <= j < i ==> !bb_intersects(#[trigger] rooms@[j], room_box, 1),
                rooms@.len() == 0 ==> ok,
            decreases rooms@.len() - i,
        {
            if rooms[i].intersects(&room_box, 1) {
                ok = false;
            }
            i += 1;
        }

        if ok {
            rooms.push(room_box);
            apply_room_to_map(&mut map, room_box);
            proof {
                assert forall|a: int, b: int| 0 <= a < b < rooms@.len() implies !bb_intersects(
                    #[trigger] rooms@[a],
                    #[trigger] rooms@[b],
                    1,
                ) by {
                    if b == rooms@.len() - 1 {
                        assert(!bb_intersects(rooms@[a], room_box, 1));
                    }
                }
            }
        }
        attempt += 1;
    }

    let nrooms = rooms.len();
    let mut i: usize = 0;
    while i + 1 < nrooms
        invariant
            map.wf(),
            nrooms == rooms@.len(),
            1 <= nrooms <= MAX_ROOMS,
            i < nrooms,
            forall|j: int| 0 <= j < rooms@.len() ==> room_in_map(#[trigger] rooms@[j]),
            forall|j: int, k: int|
                0 <= j < k < rooms@.len() ==> !bb_intersects(
                    #[trigger] rooms@[j],
                    #[trigger] rooms@[k],
                    1,
                ),
            forall|j: int, q: WorldPos|
                0 <= j < rooms@.len() && bb_contains(#[trigger] rooms@[j], q) ==> #[trigger] map.tile_at(q)
                    == TileType::Floor,
            forall|q: WorldPos|
                (#[trigger] map.tile_at(q)) == TileType::Floor ==> 1 <= q.x < MAP_WIDTH_TILES - 1
                    && 1 <= q.y < MAP_HEIGHT_TILES - 1,
            forall|j: int|
                0 <= j < i ==> l_tunnel(
                    map,
                    bb_center(#[trigger] rooms@[j]),
                    bb_center(rooms@[j + 1]),
                ),
            map.rooms@ == rooms@,
        decreases nrooms - i,
    {
        let ra = rooms[i];
        let rb = rooms[i + 1];
        let (old_x, old_y) = ra.center();
        let (new_x, new_y) = rb.center();
        proof {
            assert(bb_center(rooms@[i as int]) == (WorldPos { x: old_x, y: old_y }));
            assert(bb_center(rooms@[i + 1]) == (WorldPos { x: new_x, y: new_y }));
        }
        let ghost m_pre = map;
        if rand_range(0, 2) == 0 {
            apply_horizontal_tunnel(&mut map, old_x, new_x, old_y);
            apply_vertical_tunnel(&mut map, old_y, new_y, new_x);
            proof {
                assert(h_floor(map, old_x as int, new_x as int, old_y as int));
                assert(v_floor(map, old_y as int, new_y as int, new_x as int));
            }
        } else {
            apply_vertical_tunnel(&mut map, old_y, new_y, old_x);
            apply_horizontal_tunnel(&mut map, old_x, new_x, new_y);
            proof {
                assert(v_floor(map, old_y as int, new_y as int, old_x as int));
                assert(h_floor(map, old_x as int, new_x as int, new_y as int));
            }
        }
        proof {
            assert forall|j: int|
                0 <= j < i + 1 implies l_tunnel(
                map,
                bb_center(#[trigger] rooms@[j]),
                bb_center(rooms@[j + 1]),
            ) by {
                if j < i {
                    assert(l_tunnel(m_pre, bb_center(rooms@[j]), bb_center(rooms@[j + 1])));
                    assert forall|q: WorldPos|
                        m_pre.tile_at(q) == TileType::Floor implies #[trigger] map.tile_at(q)
                        == TileType::Floor by {}
                }
            }
        }
        i += 1;
    }

    (map, rooms)
}

impl Default for GameMap {
    fn default() -> (r: Self)
        ensures
            r.wf(),
            forall|p: WorldPos| r.tile_at(p) == TileType::Wall,
            forall|p: WorldPos| !r.is_visible(p) && !r.is_seen(p),
    {
        GameMap::new()
    }
}

} // verus!
