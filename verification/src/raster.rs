//! Tiles, rectangles and the sparse raster that a layer paints on.

use crate::keyed_map::{Key, KeyedMap};
use vstd::prelude::*;

verus! {

/// The position of a tile in the grid of tiles.
#[derive(Clone, Copy, Debug, PartialEq, Eq, PartialOrd, Ord, Hash, Structural)]
pub struct TileCoord {
    pub x: u32,
    pub y: u32,
}

impl TileCoord {
    pub fn new(x: u32, y: u32) -> (coord: TileCoord)
        ensures
            coord == (TileCoord { x, y }),
    {
        TileCoord { x, y }
    }
}

impl crate::ordering::Ranked for TileCoord {
    /// Row by row.
    open spec fn le(self, other: Self) -> bool {
        if self.y != other.y {
            self.y < other.y
        } else {
            self.x <= other.x
        }
    }

    proof fn le_total(first: Self, second: Self) {
    }

    proof fn le_transitive(first: Self, second: Self, third: Self) {
    }

    fn not_after(&self, other: &Self) -> (le: bool) {
        if self.y != other.y {
            self.y < other.y
        } else {
            self.x <= other.x
        }
    }
}

impl Key for TileCoord {
    fn same(self, other: Self) -> (equal: bool) {
        self.x == other.x && self.y == other.y
    }
}

/// A pixel in linear light with premultiplied alpha. Each channel holds the bit
/// pattern of an IEEE 754 single precision number.
#[derive(Clone, Copy, Debug, PartialEq, Eq, Hash, Structural)]
pub struct LinearRgba {
    pub r: u32,
    pub g: u32,
    pub b: u32,
    pub a: u32,
}

pub open spec fn transparent() -> LinearRgba {
    LinearRgba { r: 0, g: 0, b: 0, a: 0 }
}

/// A channel is finite when its eight exponent bits are not all set.
pub open spec fn channel_is_finite(bits: u32) -> bool {
    bits & 0x7f80_0000 != 0x7f80_0000
}

pub open spec fn pixel_finite(pixel: LinearRgba) -> bool {
    &&& channel_is_finite(pixel.r)
    &&& channel_is_finite(pixel.g)
    &&& channel_is_finite(pixel.b)
    &&& channel_is_finite(pixel.a)
}

impl LinearRgba {
    pub fn from_bits(r: u32, g: u32, b: u32, a: u32) -> (pixel: LinearRgba)
        ensures
            pixel == (LinearRgba { r, g, b, a }),
    {
        LinearRgba { r, g, b, a }
    }

    pub fn transparent() -> (pixel: LinearRgba)
        ensures
            pixel == transparent(),
    {
        LinearRgba { r: 0, g: 0, b: 0, a: 0 }
    }
}

/// Whether no channel holds an infinity or a NaN.
pub fn pixel_is_finite(pixel: LinearRgba) -> (finite: bool)
    ensures
        finite == pixel_finite(pixel),
{
    pixel.r & 0x7f80_0000 != 0x7f80_0000 && pixel.g & 0x7f80_0000 != 0x7f80_0000 && pixel.b
        & 0x7f80_0000 != 0x7f80_0000 && pixel.a & 0x7f80_0000 != 0x7f80_0000
}

/// Whether two pixels have the same bits in every channel.
pub fn pixel_bits_equal(first: LinearRgba, second: LinearRgba) -> (equal: bool)
    ensures
        equal == (first == second),
{
    first.r == second.r && first.g == second.g && first.b == second.b && first.a == second.a
}

/// The first pixel that is not finite, where there is one.
pub fn first_nonfinite(pixels: &Vec<LinearRgba>) -> (found: Option<usize>)
    ensures
        match found {
            Some(i) => i < pixels@.len() && !pixel_finite(pixels@[i as int]) && forall|j: int|
                0 <= j < i ==> pixel_finite(#[trigger] pixels@[j]),
            None => forall|j: int| 0 <= j < pixels@.len() ==> pixel_finite(#[trigger] pixels@[j]),
        },
{
    let mut i: usize = 0;
    while i < pixels.len()
        invariant
            i <= pixels@.len(),
            forall|j: int| 0 <= j < i ==> pixel_finite(#[trigger] pixels@[j]),
        decreases pixels@.len() - i,
    {
        if !pixel_is_finite(pixels[i]) {
            return Some(i);
        }
        i += 1;
    }
    None
}

/// The corners of a rectangle: the minimum is inside, the maximum is not.
pub struct Rect {
    pub min_x: int,
    pub min_y: int,
    pub max_x: int,
    pub max_y: int,
}

impl Rect {
    pub open spec fn width(self) -> int {
        self.max_x - self.min_x
    }

    pub open spec fn height(self) -> int {
        self.max_y - self.min_y
    }

    pub open spec fn area(self) -> int {
        self.width() * self.height()
    }

    pub open spec fn nonempty(self) -> bool {
        self.min_x < self.max_x && self.min_y < self.max_y
    }

    pub open spec fn contains(self, x: int, y: int) -> bool {
        self.min_x <= x < self.max_x && self.min_y <= y < self.max_y
    }

    pub open spec fn covers(self, other: Rect) -> bool {
        &&& self.min_x <= other.min_x
        &&& self.min_y <= other.min_y
        &&& other.max_x <= self.max_x
        &&& other.max_y <= self.max_y
    }

    /// The smallest rectangle that covers both.
    pub open spec fn union(self, other: Rect) -> Rect {
        Rect {
            min_x: if self.min_x <= other.min_x { self.min_x } else { other.min_x },
            min_y: if self.min_y <= other.min_y { self.min_y } else { other.min_y },
            max_x: if self.max_x >= other.max_x { self.max_x } else { other.max_x },
            max_y: if self.max_y >= other.max_y { self.max_y } else { other.max_y },
        }
    }

    /// Whether some pixel lies in both.
    pub open spec fn overlaps(self, other: Rect) -> bool {
        &&& self.min_x < other.max_x
        &&& other.min_x < self.max_x
        &&& self.min_y < other.max_y
        &&& other.min_y < self.max_y
    }

    pub open spec fn translated(self, dx: int, dy: int) -> Rect {
        Rect {
            min_x: self.min_x + dx,
            min_y: self.min_y + dy,
            max_x: self.max_x + dx,
            max_y: self.max_y + dy,
        }
    }
}

/// A rectangle of pixels that holds at least one pixel.
#[derive(Clone, Copy, Debug, PartialEq, Eq, Hash, Structural)]
pub struct RectU32 {
    pub(crate) min_x: u32,
    pub(crate) min_y: u32,
    pub(crate) max_x: u32,
    pub(crate) max_y: u32,
}

impl View for RectU32 {
    type V = Rect;

    open(crate) spec fn view(&self) -> Rect {
        Rect {
            min_x: self.min_x as int,
            min_y: self.min_y as int,
            max_x: self.max_x as int,
            max_y: self.max_y as int,
        }
    }
}

impl RectU32 {
    pub open(crate) spec fn spec_union(self, other: RectU32) -> RectU32 {
        RectU32 {
            min_x: if self.min_x <= other.min_x { self.min_x } else { other.min_x },
            min_y: if self.min_y <= other.min_y { self.min_y } else { other.min_y },
            max_x: if self.max_x >= other.max_x { self.max_x } else { other.max_x },
            max_y: if self.max_y >= other.max_y { self.max_y } else { other.max_y },
        }
    }

    #[verifier::type_invariant]
    pub(crate) open(crate) spec fn inv(self) -> bool {
        self.min_x < self.max_x && self.min_y < self.max_y
    }

    pub fn from_min_max(min_x: u32, min_y: u32, max_x: u32, max_y: u32) -> (rect: Option<RectU32>)
        ensures
            match rect {
                Some(rect) => rect@ == (Rect {
                    min_x: min_x as int,
                    min_y: min_y as int,
                    max_x: max_x as int,
                    max_y: max_y as int,
                }) && rect@.nonempty(),
                None => min_x >= max_x || min_y >= max_y,
            },
    {
        if min_x < max_x && min_y < max_y {
            Some(RectU32 { min_x, min_y, max_x, max_y })
        } else {
            None
        }
    }

    pub fn from_xywh(x: u32, y: u32, width: u32, height: u32) -> (rect: Option<RectU32>)
        ensures
            match rect {
                Some(rect) => rect@ == (Rect {
                    min_x: x as int,
                    min_y: y as int,
                    max_x: x + width,
                    max_y: y + height,
                }) && rect@.nonempty(),
                None => width == 0 || height == 0 || x + width > u32::MAX || y + height
                    > u32::MAX,
            },
    {
        match (x.checked_add(width), y.checked_add(height)) {
            (Some(max_x), Some(max_y)) => RectU32::from_min_max(x, y, max_x, max_y),
            _ => None,
        }
    }

    pub fn min_x(self) -> (value: u32)
        ensures
            value == self@.min_x,
            self@.nonempty(),
    {
        proof {
            use_type_invariant(&self);
        }
        self.min_x
    }

    pub fn min_y(self) -> (value: u32)
        ensures
            value == self@.min_y,
            self@.nonempty(),
    {
        proof {
            use_type_invariant(&self);
        }
        self.min_y
    }

    pub fn max_x(self) -> (value: u32)
        ensures
            value == self@.max_x,
            self@.nonempty(),
    {
        proof {
            use_type_invariant(&self);
        }
        self.max_x
    }

    pub fn max_y(self) -> (value: u32)
        ensures
            value == self@.max_y,
            self@.nonempty(),
    {
        proof {
            use_type_invariant(&self);
        }
        self.max_y
    }

    pub fn width(self) -> (value: u32)
        ensures
            value == self@.width(),
            value > 0,
            self@.nonempty(),
    {
        proof {
            use_type_invariant(&self);
        }
        self.max_x - self.min_x
    }

    pub fn height(self) -> (value: u32)
        ensures
            value == self@.height(),
            value > 0,
            self@.nonempty(),
    {
        proof {
            use_type_invariant(&self);
        }
        self.max_y - self.min_y
    }

    pub fn area(self) -> (value: u64)
        ensures
            value == self@.area(),
            value > 0,
            self@.nonempty(),
    {
        let width: u64 = self.width() as u64;
        let height: u64 = self.height() as u64;
        proof {
            lemma_product_fits(width as int, height as int);
        }
        width * height
    }

    pub fn union(self, other: RectU32) -> (rect: RectU32)
        ensures
            rect@ == self@.union(other@),
            rect == self.spec_union(other),
            rect@.nonempty(),
    {
        proof {
            use_type_invariant(&self);
            use_type_invariant(&other);
        }
        RectU32 {
            min_x: if self.min_x <= other.min_x { self.min_x } else { other.min_x },
            min_y: if self.min_y <= other.min_y { self.min_y } else { other.min_y },
            max_x: if self.max_x >= other.max_x { self.max_x } else { other.max_x },
            max_y: if self.max_y >= other.max_y { self.max_y } else { other.max_y },
        }
    }

    pub fn same(self, other: RectU32) -> (equal: bool)
        ensures
            equal == (self@ == other@),
            equal == (self == other),
    {
        self.min_x == other.min_x && self.min_y == other.min_y && self.max_x == other.max_x
            && self.max_y == other.max_y
    }
}

proof fn lemma_product_fits(a: int, b: int)
    requires
        0 < a <= u32::MAX,
        0 < b <= u32::MAX,
    ensures
        0 < a * b <= u32::MAX * u32::MAX,
        a * b <= u64::MAX,
{
    assert(0 < a * b <= u32::MAX * u32::MAX) by (nonlinear_arith)
        requires
            0 < a <= u32::MAX,
            0 < b <= u32::MAX,
    ;
}

/// Rectangles share a pixel exactly when each begins before the other ends.
pub fn rectangles_overlap(first: RectU32, second: RectU32) -> (overlap: bool)
    ensures
        overlap == first@.overlaps(second@),
        overlap <==> exists|x: int, y: int| #[trigger]
            first@.contains(x, y) && second@.contains(x, y),
{
    proof {
        use_type_invariant(&first);
        use_type_invariant(&second);
        let x = if first@.min_x >= second@.min_x { first@.min_x } else { second@.min_x };
        let y = if first@.min_y >= second@.min_y { first@.min_y } else { second@.min_y };
        if first@.overlaps(second@) {
            assert(first@.contains(x, y));
        }
    }
    first.min_x < second.max_x && second.min_x < first.max_x && first.min_y < second.max_y
        && second.min_y < first.max_y
}

/// The map of damaged tiles to the damaged rectangle of each.
pub open spec fn damage_add(
    damage: Map<TileCoord, Rect>,
    tile: TileCoord,
    bounds: Rect,
) -> Map<TileCoord, Rect> {
    damage.insert(
        tile,
        if damage.contains_key(tile) {
            damage[tile].union(bounds)
        } else {
            bounds
        },
    )
}

/// Two damages together.
pub open spec fn damage_merge(
    first: Map<TileCoord, Rect>,
    second: Map<TileCoord, Rect>,
) -> Map<TileCoord, Rect> {
    Map::new(
        |tile: TileCoord| first.contains_key(tile) || second.contains_key(tile),
        |tile: TileCoord|
            if !second.contains_key(tile) {
                first[tile]
            } else if !first.contains_key(tile) {
                second[tile]
            } else {
                first[tile].union(second[tile])
            },
    )
}

/// What part of a raster has changed: one rectangle for each touched tile.
#[derive(Debug)]
pub struct Damage {
    pub(crate) regions: KeyedMap<TileCoord, RectU32>,
}

impl View for Damage {
    type V = Map<TileCoord, Rect>;

    open(crate) spec fn view(&self) -> Map<TileCoord, Rect> {
        self.regions@.map_values(|bounds: RectU32| bounds@)
    }
}

impl Damage {
    pub open(crate) spec fn wf(self) -> bool {
        self.regions.wf()
    }

    pub fn new() -> (damage: Damage)
        ensures
            damage.wf(),
            damage@ == Map::<TileCoord, Rect>::empty(),
    {
        let damage = Damage { regions: KeyedMap::new() };
        assert(damage@ =~= Map::<TileCoord, Rect>::empty());
        damage
    }

    pub fn is_empty(&self) -> (empty: bool)
        requires
            self.wf(),
        ensures
            empty == (self@ == Map::<TileCoord, Rect>::empty()),
    {
        let empty = self.regions.len() == 0;
        proof {
            assert(self@.dom() =~= self.regions@.dom());
            if empty {
                assert(self@ =~= Map::<TileCoord, Rect>::empty());
            } else {
                let first = self.regions.order()[0];
                crate::keyed_map::lemma_entry_in_map(self.regions.order(), 0);
                assert(self@.contains_key(first.0));
            }
        }
        empty
    }

    pub fn add(&mut self, tile: TileCoord, bounds: RectU32)
        requires
            old(self).wf(),
        ensures
            final(self).wf(),
            final(self)@ == damage_add(old(self)@, tile, bounds@),
    {
        let merged = match self.regions.get(tile) {
            Some(previous) => previous.union(bounds),
            None => bounds,
        };
        self.regions.insert(tile, merged);
        assert(self@ =~= damage_add(old(self)@, tile, bounds@));
    }

    pub fn tile(&self, tile: TileCoord) -> (bounds: Option<RectU32>)
        requires
            self.wf(),
        ensures
            match bounds {
                Some(bounds) => self@.contains_key(tile) && self@[tile] == bounds@,
                None => !self@.contains_key(tile),
            },
    {
        match self.regions.get(tile) {
            Some(bounds) => Some(*bounds),
            None => None,
        }
    }

    /// The damaged tiles with their rectangles, each tile once.
    pub fn tile_regions(&self) -> (regions: &Vec<(TileCoord, RectU32)>)
        requires
            self.wf(),
        ensures
            crate::keyed_map::keys_unique(regions@),
            forall|i: int|
                0 <= i < regions@.len() ==> {
                    let entry = #[trigger] regions@[i];
                    self@.contains_key(entry.0) && self@[entry.0] == entry.1@
                },
            forall|tile: TileCoord| #[trigger]
                self@.contains_key(tile) ==> crate::keyed_map::has_key(regions@, tile),
    {
        proof {
            assert forall|i: int| 0 <= i < self.regions.order().len() implies {
                let entry = #[trigger] self.regions.order()[i];
                self@.contains_key(entry.0) && self@[entry.0] == entry.1@
            } by {
                crate::keyed_map::lemma_entry_in_map(self.regions.order(), i);
            }
        }
        &self.regions.entries
    }

    /// Adds the damage of another edit.
    pub fn merge(&mut self, other: &Damage)
        requires
            old(self).wf(),
            other.wf(),
        ensures
            final(self).wf(),
            final(self)@ == damage_merge(old(self)@, other@),
    {
        let regions = other.tile_regions();
        let ghost before = self@;
        let ghost all = regions@;
        let mut i: usize = 0;
        while i < regions.len()
            invariant
                self.wf(),
                all == regions@,
                crate::keyed_map::keys_unique(all),
                i <= all.len(),
                forall|k: int|
                    0 <= k < all.len() ==> {
                        let entry = #[trigger] all[k];
                        other@.contains_key(entry.0) && other@[entry.0] == entry.1@
                    },
                forall|tile: TileCoord| #[trigger]
                    self@.contains_key(tile) ==> before.contains_key(tile)
                        || other@.contains_key(tile),
                forall|tile: TileCoord|
                    before.contains_key(tile) ==> #[trigger] self@.contains_key(tile),
                forall|k: int|
                    #![trigger all[k]]
                    0 <= k < i ==> self@.contains_key(all[k].0) && self@[all[k].0]
                        == damage_merge(before, other@)[all[k].0],
                forall|tile: TileCoord|
                    (forall|k: int| 0 <= k < i ==> (#[trigger] all[k]).0 != tile) ==> (#[trigger]
                    self@.contains_key(tile) == before.contains_key(tile)) && (
                    self@.contains_key(tile) ==> self@[tile] == before[tile]),
            decreases all.len() - i,
        {
            let ghost held = self@;
            let tile = regions[i].0;
            proof {
                assert forall|k: int| 0 <= k < i implies (#[trigger] all[k]).0 != tile by {
                    assert(all[k].0 != all[i as int].0);
                }
                assert(held.contains_key(tile) == before.contains_key(tile));
            }
            self.add(tile, regions[i].1);
            proof {
                assert forall|k: int|
                    #![trigger all[k]]
                    0 <= k < i + 1 implies self@.contains_key(all[k].0) && self@[all[k].0]
                    == damage_merge(before, other@)[all[k].0] by {
                    if k < i {
                        assert(all[k].0 != all[i as int].0);
                    }
                }
                assert forall|other_tile: TileCoord|
                    (forall|k: int| 0 <= k < i + 1 ==> (#[trigger] all[k]).0
                        != other_tile) implies (#[trigger] self@.contains_key(other_tile)
                    == before.contains_key(other_tile)) && (self@.contains_key(other_tile)
                    ==> self@[other_tile] == before[other_tile]) by {
                    assert(all[i as int].0 != other_tile);
                    assert(held.contains_key(other_tile) == before.contains_key(other_tile));
                }
            }
            i += 1;
        }
        proof {
            let merged = damage_merge(before, other@);
            assert forall|tile: TileCoord| #[trigger] self@.contains_key(tile)
                == merged.contains_key(tile) by {
                if other@.contains_key(tile) {
                    let k = choose|k: int| 0 <= k < all.len() && (#[trigger] all[k]).0 == tile;
                    assert(self@.contains_key(all[k].0));
                }
            }
            assert forall|tile: TileCoord| #[trigger] self@.contains_key(tile) implies self@[tile]
                == merged[tile] by {
                if other@.contains_key(tile) {
                    let k = choose|k: int| 0 <= k < all.len() && (#[trigger] all[k]).0 == tile;
                    assert(self@[all[k].0] == merged[all[k].0]);
                } else {
                    assert forall|k: int| 0 <= k < i implies (#[trigger] all[k]).0 != tile by {
                        if all[k].0 == tile {
                            assert(other@.contains_key(all[k].0));
                        }
                    }
                }
            }
            assert(self@ =~= merged);
        }
    }
}

} // verus!
