//! Which strokes, tiles and colors are accepted.

use crate::device::grows_to;
use crate::document_metadata::MetadataModel;
use crate::gpu_document_recovery::pairing_error;
use crate::gpu_recovery_replay::GpuRasterRecoveryCommand;
use crate::gpu_recovery_timeline::{TimelineModel, TimelineSnapshotModel};
use crate::gpu_cpu_mirror::MirrorModel;
use crate::gpu_round_recovery::{round_build_error, round_byte_len, step_times, times_in_order};
use crate::gpu_stroke::{
    names_tile, overlay_error, overlays_error, pixel_error, pixel_premultiplied, GpuStrokeVertex,
    SourceOverModel, StrokeTileDamage,
};
use crate::gpu_stroke_laws::alike;
use crate::gpu_stroke_target::{
    all_touched_error, touched_error, valid_color, vertices_error, StrokeTargetModel,
};
use crate::raster::LinearRgba;
use crate::raster_layer::RasterGeometry;
use crate::stroke::{path_run, RoundBrushRecipeV1, RoundContact, RoundPathCommand};
use vstd::arithmetic::power2::{lemma_pow2_unfold, pow2};
use vstd::prelude::*;

verus! {

/// A number that is not negative, in its 32 bits: below the sign bit and below infinity, or the
/// negative zero.
pub open spec fn is_not_negative(bits: u32) -> bool {
    bits < 0x7f80_0000 || bits == 0x8000_0000
}

/// A number between zero and one.
pub open spec fn is_part(bits: u32) -> bool {
    bits <= 0x3f80_0000 || bits == 0x8000_0000
}

pub open spec fn is_nought(bits: u32) -> bool {
    bits == 0 || bits == 0x8000_0000
}

/// The paint of a stroke is accepted just where its three colors are not negative, its alpha lies
/// between zero and one, and it has no color where it has no alpha.
pub proof fn law_premultiplied_paint_is_accepted(color: [u32; 4])
    ensures
        valid_color(color) <==> {
            &&& is_not_negative(color[0]) && is_not_negative(color[1]) && is_not_negative(color[2])
            &&& is_part(color[3])
            &&& is_nought(color[3]) ==> is_nought(color[0]) && is_nought(color[1]) && is_nought(
                color[2],
            )
        },
{
}

/// The same holds of each pixel of a stroke.
pub proof fn law_premultiplied_pixels_are_accepted(pixel: LinearRgba)
    ensures
        pixel_premultiplied(pixel) <==> {
            &&& is_not_negative(pixel.r) && is_not_negative(pixel.g) && is_not_negative(pixel.b)
            &&& is_part(pixel.a)
            &&& is_nought(pixel.a) ==> is_nought(pixel.r) && is_nought(pixel.g) && is_nought(
                pixel.b,
            )
        },
{
}

/// Vertices are accepted just where they make whole triangles, at least one, and are all finite.
pub proof fn law_whole_triangles_are_accepted(vertices: Seq<GpuStrokeVertex>)
    ensures
        vertices_error(vertices) is None <==> {
            &&& vertices.len() > 0
            &&& vertices.len() % 3 == 0
            &&& forall|i: int|
                #![trigger vertices[i]]
                0 <= i < vertices.len() ==> vertices[i].position[0] % 0x8000_0000 < 0x7f80_0000
                    && vertices[i].position[1] % 0x8000_0000 < 0x7f80_0000
        },
{
    if vertices_error(vertices) is None {
        assert forall|i: int|
            #![trigger vertices[i]]
            0 <= i < vertices.len() implies vertices[i].position[0] % 0x8000_0000 < 0x7f80_0000
            && vertices[i].position[1] % 0x8000_0000 < 0x7f80_0000 by {
            assert(crate::gpu_stroke_target::vertex_finite(vertices[i]));
        }
    }
}

/// The damage of a tile lies in the tile and on the canvas.
pub open spec fn damage_on_canvas(target: StrokeTargetModel, touched: StrokeTileDamage) -> bool {
    &&& touched.local_damage@.max_x <= target.tile_size
    &&& touched.local_damage@.max_y <= target.tile_size
    &&& touched.coord.x * target.tile_size + touched.local_damage@.max_x <= target.width
    &&& touched.coord.y * target.tile_size + touched.local_damage@.max_y <= target.height
}

/// Touched tiles are accepted just where none is named twice, and the damage of each lies in the tile
/// and on the canvas.
pub proof fn law_touched_tiles_lie_on_the_canvas(
    target: StrokeTargetModel,
    touched: Seq<StrokeTileDamage>,
    n: int,
)
    requires
        0 <= n <= touched.len(),
        0 < target.tile_size,
        target.width <= u32::MAX,
        target.height <= u32::MAX,
        forall|i: int|
            #![trigger touched[i]]
            0 <= i < touched.len() ==> 0 < touched[i].local_damage@.max_x && 0
                < touched[i].local_damage@.max_y,
    ensures
        all_touched_error(target, touched, n) is None <==> {
            &&& forall|i: int| 0 <= i < n ==> damage_on_canvas(target, #[trigger] touched[i])
            &&& forall|i: int, j: int|
                #![trigger touched[i], touched[j]]
                0 <= i < j < n ==> touched[i].coord != touched[j].coord
        },
    decreases n,
{
    if n > 0 {
        law_touched_tiles_lie_on_the_canvas(target, touched, n - 1);
        let last = touched[n - 1];
        if all_touched_error(target, touched, n) is None {
            assert(touched_error(target, touched, n - 1) is None);
            assert forall|i: int, j: int|
                #![trigger touched[i], touched[j]]
                0 <= i < j < n implies touched[i].coord != touched[j].coord by {}
        } else if forall|i: int|
            0 <= i < n ==> damage_on_canvas(target, #[trigger] touched[i]) {
            assert(damage_on_canvas(target, touched[n - 1]));
        }
    }
}

/// A tile of a stroke fits the layer: it lies on the canvas, its damage too, and it brings an acceptable
/// pixel for each place of the tile.
pub open spec fn tile_fits(geometry: RasterGeometry, tile: SourceOverModel) -> bool {
    &&& tile.coord.x * geometry.tile_size < geometry.width
    &&& tile.coord.y * geometry.tile_size < geometry.height
    &&& tile.local_damage@.max_x <= geometry.tile_size
    &&& tile.local_damage@.max_y <= geometry.tile_size
    &&& tile.coord.x * geometry.tile_size + tile.local_damage@.max_x <= geometry.width
    &&& tile.coord.y * geometry.tile_size + tile.local_damage@.max_y <= geometry.height
    &&& tile.pixels.len() == geometry.tile_size * geometry.tile_size
    &&& forall|k: int|
        #![trigger tile.pixels[k]]
        0 <= k < tile.pixels.len() ==> pixel_premultiplied(tile.pixels[k])
}

proof fn lemma_pixels(tile: SourceOverModel, n: int)
    requires
        0 <= n <= tile.pixels.len(),
    ensures
        pixel_error(tile, n) is None <==> forall|k: int|
            #![trigger tile.pixels[k]]
            0 <= k < n ==> pixel_premultiplied(tile.pixels[k]),
    decreases n,
{
    if n > 0 {
        lemma_pixels(tile, n - 1);
    }
}

/// The tiles of a stroke are accepted just where none is named twice and each fits the layer.
pub proof fn law_stroke_tiles_fit_the_layer(geometry: RasterGeometry, tiles: Seq<SourceOverModel>)
    ensures
        overlays_error(geometry, tiles) is None <==> {
            &&& forall|i: int| 0 <= i < tiles.len() ==> tile_fits(geometry, #[trigger] tiles[i])
            &&& forall|i: int, j: int|
                #![trigger tiles[i], tiles[j]]
                0 <= i < j < tiles.len() ==> tiles[i].coord != tiles[j].coord
        },
    decreases tiles.len(),
{
    if tiles.len() > 0 {
        let rest = tiles.drop_last();
        let last = tiles.last();
        law_stroke_tiles_fit_the_layer(geometry, rest);
        lemma_pixels(last, last.pixels.len() as int);
        assert(forall|i: int| #![trigger tiles[i]] 0 <= i < rest.len() ==> rest[i] == tiles[i]);
        assert(tiles[tiles.len() - 1] == last);
        if overlays_error(geometry, tiles) is None {
            assert(overlay_error(geometry, rest, last) is None);
            assert forall|i: int| 0 <= i < tiles.len() implies tile_fits(
                geometry,
                #[trigger] tiles[i],
            ) by {
                if i < rest.len() {
                    assert(tile_fits(geometry, rest[i]));
                }
            }
            assert forall|i: int, j: int|
                #![trigger tiles[i], tiles[j]]
                0 <= i < j < tiles.len() implies tiles[i].coord != tiles[j].coord by {
                assert(rest[i] == tiles[i]);
                if j < rest.len() {
                    assert(rest[j] == tiles[j]);
                }
            }
        } else if (forall|i: int|
            0 <= i < tiles.len() ==> tile_fits(geometry, #[trigger] tiles[i])) && (forall|
            i: int,
            j: int,
        |
            #![trigger tiles[i], tiles[j]]
            0 <= i < j < tiles.len() ==> tiles[i].coord != tiles[j].coord) {
            assert forall|i: int| 0 <= i < rest.len() implies tile_fits(
                geometry,
                #[trigger] rest[i],
            ) by {
                assert(tile_fits(geometry, tiles[i]));
            }
            assert forall|i: int, j: int|
                #![trigger rest[i], rest[j]]
                0 <= i < j < rest.len() implies rest[i].coord != rest[j].coord by {
                assert(tiles[i].coord != tiles[j].coord);
            }
            assert(!names_tile(rest, last.coord)) by {
                if names_tile(rest, last.coord) {
                    let i = choose|i: int|
                        0 <= i < rest.len() && (#[trigger] rest[i]).coord == last.coord;
                    assert(tiles[i].coord != tiles[tiles.len() - 1].coord);
                }
            }
            assert(tile_fits(geometry, tiles[tiles.len() - 1]));
        }
    }
}

/// Where a step of a path ends, if it leaves the brush on the canvas.
pub open spec fn left_at(command: RoundPathCommand) -> Option<RoundContact> {
    match command {
        RoundPathCommand::Begin(contact) => Some(contact),
        RoundPathCommand::Sweep { to, .. } => Some(to),
        RoundPathCommand::End { .. } => None,
    }
}

/// Two contacts are at the same place, of the same size and at the same time.
pub open spec fn contacts_meet(first: RoundContact, second: RoundContact) -> bool {
    &&& alike(first.center[0], second.center[0])
    &&& alike(first.center[1], second.center[1])
    &&& alike(first.radius, second.radius)
    &&& first.elapsed_micros == second.elapsed_micros
}

/// The step carries on from where the brush was: it comes down only where it was lifted, and moves or
/// lifts only from where it was.
pub open spec fn carries_on(was: Option<RoundContact>, command: RoundPathCommand) -> bool {
    match command {
        RoundPathCommand::Begin(_) => was is None,
        RoundPathCommand::Sweep { from, .. } => was is Some && contacts_meet(was->0, from),
        RoundPathCommand::End { at, .. } => was is Some && contacts_meet(was->0, at),
    }
}

/// Where the brush is before a step of a path.
pub open spec fn before_step(commands: Seq<RoundPathCommand>, i: int) -> Option<RoundContact> {
    if i == 0 {
        None
    } else {
        left_at(commands[i - 1])
    }
}

proof fn lemma_reached(commands: Seq<RoundPathCommand>)
    requires
        path_run(None, commands) is Ok,
    ensures
        path_run(None, commands)->Ok_0 == before_step(commands, commands.len() as int),
        commands.len() > 0 ==> path_run(None, commands.drop_last()) is Ok,
{
}

proof fn lemma_path(commands: Seq<RoundPathCommand>, i: int)
    requires
        path_run(None, commands) is Ok,
        0 <= i < commands.len(),
    ensures
        carries_on(before_step(commands, i), commands[i]),
    decreases commands.len(),
{
    let rest = commands.drop_last();
    lemma_reached(commands);
    lemma_reached(rest);
    if i < rest.len() {
        lemma_path(rest, i);
        assert(rest[i] == commands[i]);
        if i > 0 {
            assert(rest[i - 1] == commands[i - 1]);
        }
    } else {
        if i > 0 {
            assert(rest[i - 1] == commands[i - 1]);
        }
    }
}

proof fn lemma_times(commands: Seq<RoundPathCommand>, i: int)
    requires
        times_in_order(commands),
        0 <= i < commands.len(),
    ensures
        step_times(commands[i]).0 <= step_times(commands[i]).1,
        i > 0 ==> step_times(commands[i - 1]).1 <= step_times(commands[i]).0,
{
}

/// A stroke makes a command only where it is complete: it comes down first and is lifted last, each
/// step carries on from the one before, and time never runs backward from one step to the next.
pub proof fn law_journaled_stroke_is_complete(
    recipe: RoundBrushRecipeV1,
    commands: Seq<RoundPathCommand>,
    i: int,
)
    requires
        round_build_error(recipe, commands) is None,
        0 <= i < commands.len(),
    ensures
        commands[0] is Begin,
        commands.last() is End,
        carries_on(before_step(commands, i), commands[i]),
        recipe@.material.opacity % 0x8000_0000 != 0,
        recipe@.material.flow == 0x3f80_0000,
        i > 0 ==> step_times(commands[i - 1]).1 <= step_times(commands[i]).0,
        match commands[i] {
            RoundPathCommand::Sweep { from, to } => from.elapsed_micros <= to.elapsed_micros,
            RoundPathCommand::End { at, elapsed_micros } => at.elapsed_micros <= elapsed_micros,
            _ => true,
        },
{
    lemma_path(commands, 0);
    lemma_path(commands, i);
    lemma_reached(commands);
    assert(times_in_order(commands));
    lemma_times(commands, i);
}

/// What a stroke holds in memory grows by the same amount for each of its commands.
pub proof fn law_strokes_are_counted_by_their_commands(
    commands: Seq<RoundPathCommand>,
    command: RoundPathCommand,
)
    ensures
        round_byte_len(commands.push(command)) == round_byte_len(commands) + vstd::layout::size_of::<
            RoundPathCommand,
        >(),
{
    let n = commands.len() as int;
    let size = vstd::layout::size_of::<RoundPathCommand>() as int;
    assert((n + 1) * size == n * size + size) by (nonlinear_arith);
}

/// A buffer is always large enough and never shrinks; where it grows it is less than twice as large as
/// needed, and within the limit.
pub proof fn law_buffers_grow_enough(capacity: u64, required: u64, maximum: u64, grown: u64)
    requires
        grows_to(capacity, required, maximum, grown),
    ensures
        grown >= required,
        grown >= capacity,
        required <= capacity ==> grown == capacity,
        required > capacity ==> grown <= maximum,
        required > capacity && required > 1 ==> grown < 2 * required,
{
    if required > capacity {
        let k = choose|k: nat|
            grown == #[trigger] pow2(k) && required <= grown && (k == 0 || pow2((k - 1) as nat)
                < required);
        if k > 0 {
            lemma_pow2_unfold(k);
        } else {
            vstd::arithmetic::power2::lemma2_to64();
        }
    }
}

/// Metadata and pixels make one snapshot just where they are of the same revision and size.
pub proof fn law_snapshot_parts_belong_together(
    metadata: MetadataModel,
    rasters: TimelineSnapshotModel<GpuRasterRecoveryCommand>,
)
    ensures
        pairing_error(metadata, rasters) is None <==> metadata.revision == rasters.target
            && metadata.geometry == rasters.base.geometry,
{
}

/// The base of a timeline moves just to a mirror of the same size that is newer, and no newer than the
/// journal.
pub proof fn law_base_moves_forward<C>(timeline: TimelineModel<C>, next: MirrorModel)
    requires
        timeline.valid(),
    ensures
        timeline.advance_error(next) is None <==> {
            &&& next.geometry == timeline.base.geometry
            &&& timeline.base.revision.0 < next.revision.0 <= timeline.journal.latest.0
        },
        timeline.advanced(next).base == next,
        timeline.advanced(next).journal.mirrored == next.revision,
        timeline.advanced(next).journal.latest == timeline.journal.latest,
{
}

} // verus!
