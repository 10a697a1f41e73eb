//! What a blade draws, and what part of the canvas it touches.

use crate::brush::{BladeContact, BrushSample};
use crate::gpu_blade_stroke::{
    fan, local_part, swept_damage, swept_vertices, touched_by, triangle, BladeGeometry, BladeModel,
    BladePose, BladeReading, BladeSweepOutline,
};
use crate::gpu_stroke_laws::smallest_around;
use crate::pixel_grid::lemma_grid_position;
use crate::raster::{damage_add, damage_merge, Rect, TileCoord};
use vstd::prelude::*;

verus! {

/// Two damages together touch the tiles of both; where both touch a tile, the smallest rectangle
/// around the two parts is touched.
pub proof fn law_damage_adds_up(
    first: Map<TileCoord, Rect>,
    second: Map<TileCoord, Rect>,
    tile: TileCoord,
)
    ensures
        damage_merge(first, second).contains_key(tile) <==> first.contains_key(tile)
            || second.contains_key(tile),
        first.contains_key(tile) && !second.contains_key(tile) ==> damage_merge(first, second)[tile]
            == first[tile],
        second.contains_key(tile) && !first.contains_key(tile) ==> damage_merge(first, second)[tile]
            == second[tile],
        first.contains_key(tile) && second.contains_key(tile) ==> smallest_around(
            damage_merge(first, second)[tile],
            first[tile],
            second[tile],
        ),
{
}

/// Adding a rectangle to a damage touches its tile, and leaves the others.
pub proof fn law_damage_takes_a_rectangle_in(
    damage: Map<TileCoord, Rect>,
    tile: TileCoord,
    bounds: Rect,
    other: TileCoord,
)
    ensures
        damage_add(damage, tile, bounds).contains_key(tile),
        !damage.contains_key(tile) ==> damage_add(damage, tile, bounds)[tile] == bounds,
        damage.contains_key(tile) ==> smallest_around(
            damage_add(damage, tile, bounds)[tile],
            damage[tile],
            bounds,
        ),
        other != tile ==> damage_add(damage, tile, bounds).contains_key(other)
            == damage.contains_key(other),
        other != tile && damage.contains_key(other) ==> damage_add(damage, tile, bounds)[other]
            == damage[other],
{
}

/// An outline is drawn as a fan of triangles from its first corner, one for each further edge.
pub proof fn law_outline_is_drawn_as_a_fan(corners: Seq<[u32; 2]>, n: int, k: int)
    requires
        0 <= k < n,
        n + 2 <= corners.len(),
    ensures
        fan(corners, n).len() == 3 * n,
        fan(corners, n)[3 * k].position == corners[0],
        fan(corners, n)[3 * k + 1].position == corners[k + 1],
        fan(corners, n)[3 * k + 2].position == corners[k + 2],
    decreases n,
{
    lemma_fan_len(corners, n - 1);
    let rest = fan(corners, n - 1);
    let all = fan(corners, n);
    if k < n - 1 {
        law_outline_is_drawn_as_a_fan(corners, n - 1, k);
        assert(all[3 * k] == rest[3 * k]);
        assert(all[3 * k + 1] == rest[3 * k + 1]);
        assert(all[3 * k + 2] == rest[3 * k + 2]);
    } else {
        let last = triangle(corners, n);
        assert(all[3 * k] == last[0]);
        assert(all[3 * k + 1] == last[1]);
        assert(all[3 * k + 2] == last[2]);
    }
}

proof fn lemma_fan_len(corners: Seq<[u32; 2]>, n: int)
    requires
        0 <= n,
    ensures
        fan(corners, n).len() == 3 * n,
    decreases n,
{
    if n > 0 {
        lemma_fan_len(corners, n - 1);
    }
}

/// The vertices of several outlines are those of each, one after the other.
pub proof fn law_outlines_are_drawn_in_order(sweeps: Seq<BladeSweepOutline>, last: BladeSweepOutline)
    ensures
        swept_vertices(sweeps.push(last)) == swept_vertices(sweeps) + fan(
            last.corners@,
            last.corners@.len() - 2,
        ),
        swept_vertices(Seq::empty()).len() == 0,
{
    assert(sweeps.push(last).drop_last() =~= sweeps);
}

/// The tile part of a rectangle holds just the rectangle's pixels in the tile.
proof fn lemma_local_part(bounds: Rect, tile_size: int, tile: TileCoord, x: int, y: int)
    requires
        tile_size > 0,
        0 <= x < tile_size,
        0 <= y < tile_size,
    ensures
        local_part(bounds, tile_size, tile).contains(x, y) <==> bounds.contains(
            tile.x * tile_size + x,
            tile.y * tile_size + y,
        ),
{
}

/// Every pixel within the bounds of an outline is damaged, in the tile that holds it.
pub proof fn law_every_swept_pixel_is_damaged(
    sweeps: Seq<BladeSweepOutline>,
    tile_size: int,
    i: int,
    x: int,
    y: int,
)
    requires
        0 < tile_size,
        0 <= i < sweeps.len(),
        sweeps[i].min_x <= x < sweeps[i].max_x,
        sweeps[i].min_y <= y < sweeps[i].max_y,
    ensures
        ({
            let tile = TileCoord { x: (x / tile_size) as u32, y: (y / tile_size) as u32 };
            &&& swept_damage(sweeps, tile_size).contains_key(tile)
            &&& swept_damage(sweeps, tile_size)[tile].contains(x % tile_size, y % tile_size)
        }),
    decreases sweeps.len(),
{
    let tile = TileCoord { x: (x / tile_size) as u32, y: (y / tile_size) as u32 };
    let rest = sweeps.drop_last();
    lemma_tile_of(tile_size, x);
    lemma_tile_of(tile_size, y);
    if i < rest.len() {
        assert(rest[i] == sweeps[i]);
        law_every_swept_pixel_is_damaged(rest, tile_size, i, x, y);
    } else {
        let bounds = sweeps.last().bounds();
        lemma_order(tile_size, bounds.min_x, x);
        lemma_order(tile_size, x, bounds.max_x - 1);
        lemma_order(tile_size, bounds.min_y, y);
        lemma_order(tile_size, y, bounds.max_y - 1);
        lemma_local_part(bounds, tile_size, tile, x % tile_size, y % tile_size);
        assert(touched_by(bounds, tile_size).contains_key(tile));
    }
}

proof fn lemma_order(step: int, a: int, b: int)
    requires
        step > 0,
        a <= b,
    ensures
        a / step <= b / step,
{
    vstd::arithmetic::div_mod::lemma_div_is_ordered(a, b, step);
}

proof fn lemma_tile_of(step: int, x: int)
    requires
        step > 0,
        0 <= x < u32::MAX,
    ensures
        0 <= x / step <= x,
        ((x / step) as u32) * step + x % step == x,
        0 <= x % step < step,
{
    lemma_grid_position(step, x);
    assert(x / step <= x) by (nonlinear_arith)
        requires
            step > 0,
            0 <= x,
            (x / step) * step + x % step == x,
            0 <= x % step,
            0 <= x / step,
    ;
}

/// Whether some outline's bounds reach the pixel of a tile.
pub open spec fn swept_pixel(
    sweeps: Seq<BladeSweepOutline>,
    tile_size: int,
    tile: TileCoord,
    x: int,
    y: int,
) -> bool {
    &&& 0 <= x < tile_size
    &&& 0 <= y < tile_size
    &&& exists|i: int|
        #![trigger sweeps[i]]
        0 <= i < sweeps.len() && sweeps[i].min_x <= tile.x * tile_size + x < sweeps[i].max_x
            && sweeps[i].min_y <= tile.y * tile_size + y < sweeps[i].max_y
}

/// Each side of the rectangle touches a pixel that was swept.
pub open spec fn sides_are_swept(
    sweeps: Seq<BladeSweepOutline>,
    tile_size: int,
    tile: TileCoord,
    bounds: Rect,
) -> bool {
    &&& exists|y: int| #[trigger] swept_pixel(sweeps, tile_size, tile, bounds.min_x, y)
    &&& exists|y: int| #[trigger] swept_pixel(sweeps, tile_size, tile, bounds.max_x - 1, y)
    &&& exists|x: int| #[trigger] swept_pixel(sweeps, tile_size, tile, x, bounds.min_y)
    &&& exists|x: int| #[trigger] swept_pixel(sweeps, tile_size, tile, x, bounds.max_y - 1)
}

proof fn lemma_swept_more(
    sweeps: Seq<BladeSweepOutline>,
    tile_size: int,
    tile: TileCoord,
    x: int,
    y: int,
)
    requires
        sweeps.len() > 0,
    ensures
        swept_pixel(sweeps.drop_last(), tile_size, tile, x, y) ==> swept_pixel(
            sweeps,
            tile_size,
            tile,
            x,
            y,
        ),
        0 <= x < tile_size && 0 <= y < tile_size && sweeps.last().bounds().contains(
            tile.x * tile_size + x,
            tile.y * tile_size + y,
        ) ==> swept_pixel(sweeps, tile_size, tile, x, y),
{
    let rest = sweeps.drop_last();
    if swept_pixel(rest, tile_size, tile, x, y) {
        let i = choose|i: int|
            #![trigger rest[i]]
            0 <= i < rest.len() && rest[i].min_x <= tile.x * tile_size + x < rest[i].max_x
                && rest[i].min_y <= tile.y * tile_size + y < rest[i].max_y;
        assert(sweeps[i] == rest[i]);
    }
    assert(sweeps[sweeps.len() - 1] == sweeps.last());
}

proof fn lemma_sides_stay(
    sweeps: Seq<BladeSweepOutline>,
    tile_size: int,
    tile: TileCoord,
    bounds: Rect,
)
    requires
        sweeps.len() > 0,
        sides_are_swept(sweeps.drop_last(), tile_size, tile, bounds),
    ensures
        sides_are_swept(sweeps, tile_size, tile, bounds),
{
    let rest = sweeps.drop_last();
    let a = choose|y: int| #[trigger] swept_pixel(rest, tile_size, tile, bounds.min_x, y);
    let b = choose|y: int| #[trigger] swept_pixel(rest, tile_size, tile, bounds.max_x - 1, y);
    let c = choose|x: int| #[trigger] swept_pixel(rest, tile_size, tile, x, bounds.min_y);
    let d = choose|x: int| #[trigger] swept_pixel(rest, tile_size, tile, x, bounds.max_y - 1);
    lemma_swept_more(sweeps, tile_size, tile, bounds.min_x, a);
    lemma_swept_more(sweeps, tile_size, tile, bounds.max_x - 1, b);
    lemma_swept_more(sweeps, tile_size, tile, c, bounds.min_y);
    lemma_swept_more(sweeps, tile_size, tile, d, bounds.max_y - 1);
    assert(swept_pixel(sweeps, tile_size, tile, bounds.min_x, a));
    assert(swept_pixel(sweeps, tile_size, tile, bounds.max_x - 1, b));
    assert(swept_pixel(sweeps, tile_size, tile, c, bounds.min_y));
    assert(swept_pixel(sweeps, tile_size, tile, d, bounds.max_y - 1));
}

/// Only what outlines reach is damaged: a tile without a swept pixel is not, and the damage of a tile
/// reaches no further than to its outermost swept pixels.
pub proof fn law_damage_is_no_larger_than_the_sweeps(
    sweeps: Seq<BladeSweepOutline>,
    tile_size: int,
    tile: TileCoord,
)
    requires
        0 < tile_size,
        swept_damage(sweeps, tile_size).contains_key(tile),
    ensures
        sides_are_swept(sweeps, tile_size, tile, swept_damage(sweeps, tile_size)[tile]),
    decreases sweeps.len(),
{
    let rest = sweeps.drop_last();
    let bounds = sweeps.last().bounds();
    let earlier = swept_damage(rest, tile_size);
    let last = touched_by(bounds, tile_size);
    if earlier.contains_key(tile) {
        law_damage_is_no_larger_than_the_sweeps(rest, tile_size, tile);
        lemma_sides_stay(sweeps, tile_size, tile, earlier[tile]);
    }
    if last.contains_key(tile) {
        let part = last[tile];
        lemma_part_inside(bounds, tile_size, tile);
        lemma_swept_more(sweeps, tile_size, tile, part.min_x, part.min_y);
        lemma_swept_more(sweeps, tile_size, tile, part.max_x - 1, part.min_y);
        lemma_swept_more(sweeps, tile_size, tile, part.min_x, part.max_y - 1);
        assert(swept_pixel(sweeps, tile_size, tile, part.min_x, part.min_y));
        assert(swept_pixel(sweeps, tile_size, tile, part.max_x - 1, part.min_y));
        assert(swept_pixel(sweeps, tile_size, tile, part.min_x, part.max_y - 1));
        assert(sides_are_swept(sweeps, tile_size, tile, part));
    }
    if earlier.contains_key(tile) && last.contains_key(tile) {
        lemma_sides_of_both(sweeps, tile_size, tile, earlier[tile], last[tile]);
    }
}

proof fn lemma_sides_of_both(
    sweeps: Seq<BladeSweepOutline>,
    tile_size: int,
    tile: TileCoord,
    first: Rect,
    second: Rect,
)
    requires
        sides_are_swept(sweeps, tile_size, tile, first),
        sides_are_swept(sweeps, tile_size, tile, second),
    ensures
        sides_are_swept(sweeps, tile_size, tile, first.union(second)),
{
    let both = first.union(second);
    let left = if first.min_x <= second.min_x {
        first
    } else {
        second
    };
    let right = if first.max_x >= second.max_x {
        first
    } else {
        second
    };
    let top = if first.min_y <= second.min_y {
        first
    } else {
        second
    };
    let bottom = if first.max_y >= second.max_y {
        first
    } else {
        second
    };
    let a = choose|y: int| #[trigger] swept_pixel(sweeps, tile_size, tile, left.min_x, y);
    let b = choose|y: int| #[trigger] swept_pixel(sweeps, tile_size, tile, right.max_x - 1, y);
    let c = choose|x: int| #[trigger] swept_pixel(sweeps, tile_size, tile, x, top.min_y);
    let d = choose|x: int| #[trigger] swept_pixel(sweeps, tile_size, tile, x, bottom.max_y - 1);
    assert(swept_pixel(sweeps, tile_size, tile, both.min_x, a));
    assert(swept_pixel(sweeps, tile_size, tile, both.max_x - 1, b));
    assert(swept_pixel(sweeps, tile_size, tile, c, both.min_y));
    assert(swept_pixel(sweeps, tile_size, tile, d, both.max_y - 1));
}

proof fn lemma_part_inside(bounds: Rect, tile_size: int, tile: TileCoord)
    requires
        tile_size > 0,
        0 <= bounds.min_x,
        0 <= bounds.min_y,
        touched_by(bounds, tile_size).contains_key(tile),
    ensures
        ({
            let part = touched_by(bounds, tile_size)[tile];
            &&& 0 <= part.min_x < part.max_x <= tile_size
            &&& 0 <= part.min_y < part.max_y <= tile_size
            &&& bounds.min_x <= tile.x * tile_size + part.min_x
            &&& tile.x * tile_size + part.max_x <= bounds.max_x
            &&& bounds.min_y <= tile.y * tile_size + part.min_y
            &&& tile.y * tile_size + part.max_y <= bounds.max_y
        }),
{
    lemma_axis(bounds.min_x, bounds.max_x, tile_size, tile.x as int);
    lemma_axis(bounds.min_y, bounds.max_y, tile_size, tile.y as int);
}

proof fn lemma_axis(low: int, high: int, step: int, at: int)
    requires
        step > 0,
        0 <= low < high,
        low / step <= at <= (high - 1) / step,
    ensures
        at * step < high,
        low < at * step + step,
{
    lemma_grid_position(step, low);
    lemma_grid_position(step, high - 1);
    assert(at * step <= ((high - 1) / step) * step) by (nonlinear_arith)
        requires
            step > 0,
            at <= (high - 1) / step,
    ;
    assert((low / step) * step <= at * step) by (nonlinear_arith)
        requires
            step > 0,
            low / step <= at,
    ;
}

/// A blade is lifted just where it is not pressed or its paint is invisible. Otherwise it comes down
/// where it was lifted, and moves on where it was down.
pub proof fn law_pressed_blade_touches_and_then_sweeps(stroke: BladeModel, sample: BrushSample)
    requires
        sample.pressure % 0x8000_0000 <= 0x7f80_0000,
    ensures
        stroke.contact(sample) == BladeContact::Lift <==> sample.pressure == 0 || sample.pressure
            >= 0x8000_0000 || stroke.brush.opacity % 0x8000_0000 == 0,
        stroke.contact(sample) == BladeContact::Touch ==> stroke.previous is None,
        stroke.contact(sample) == BladeContact::Sweep ==> stroke.previous is Some,
{
}

/// A sample takes the blade along: to the sample's place and direction, and onto the canvas or off it.
/// Where it came down, the next sample moves on from its pose.
pub proof fn law_sample_takes_the_blade_along<
    D: Fn(BrushSample, [u32; 2], [u32; 2]) -> [u32; 2],
    P: Fn([u32; 2], [u32; 2], u32) -> Option<BladePose>,
    T: Fn(BladePose) -> BladeSweepOutline,
    S: Fn(BladePose, BladePose) -> Vec<BladeSweepOutline>,
>(
    geometry: BladeGeometry<D, P, T, S>,
    stroke: BladeModel,
    reading: BladeReading,
    pose: BladePose,
)
    requires
        geometry.answers(stroke, reading),
        reading.pose == Some(pose),
        stroke.contact(reading.sample) != BladeContact::Lift,
    ensures
        ({
            let after = stroke.sampled(reading);
            &&& after.last_position == reading.sample.position
            &&& after.direction == reading.direction
            &&& after.previous == Some(pose)
            &&& after.vertices == stroke.vertices + swept_vertices(reading.sweeps)
            &&& after.damage == damage_merge(
                stroke.damage,
                swept_damage(reading.sweeps, stroke.tile_size),
            )
            &&& stroke.contact(reading.sample) == BladeContact::Touch ==> reading.sweeps.len() == 1
                && call_ensures(geometry.touch, (pose,), reading.sweeps[0])
            &&& stroke.contact(reading.sample) == BladeContact::Sweep ==> exists|
                outlines: Vec<BladeSweepOutline>,
            |
                #[trigger] call_ensures(geometry.sweep, (stroke.previous->0, pose), outlines)
                    && outlines@ == reading.sweeps
            &&& after.brush == stroke.brush
            &&& after.canvas == stroke.canvas
            &&& after.tile_size == stroke.tile_size
            &&& after.finalized == stroke.finalized
        }),
{
}

} // verus!
